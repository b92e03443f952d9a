//! Processes in the order in which a tree shows them, and the lines that are
//! drawn in front of each.

use crate::arena::{
    end_of_nest, end_of_run, fits, has_index, nest_end, nest_fits, next_start, FReserve, FSpan, FVec,
    Frame,
};
use crate::bytes::utf8_of;
use crate::forest::{
    has_level, holds, lemma_child_level, lemma_few_below, lemma_holds_parent, lemma_level,
    lemma_level_bounded, lemma_parent_holds, lemma_top_level, lemma_up_add, lemma_up_in_list,
    lemma_up_level, lemma_up_shorter, level, parent, rooted, tree_shaped, up,
};
use crate::layout::{bytes_of, lemma_align_up, lemma_align_up_mono};
use crate::map::{
    appends, fold_states, freeze_map_owned, has_key, lemma_value_at, merges, strictly_ascending,
    value_of, FrozenMap, U32Map,
};
use crate::nest::{
    bucket_of, in_buckets, joined, law_flat_joins_buckets, lemma_start_of_total, start_of, FNest,
};
use crate::procinfo::ProcInfo;
use crate::sort::{ascending, U32Key};
use crate::twrite::{Put, TinyWriter};
use vstd::prelude::*;
use vstd::string::StringSliceAdditionalSpecFns;

verus! {

/// Levels that can be told apart in a mask.
pub const MASK_LEVELS: u32 = 32;

/// A place in the tree: how deep it is, and for each level on the way down
/// (bit `i` for level `i + 1`) whether it is the last at its level.
#[derive(Clone, Copy, Debug, PartialEq, Eq, Structural)]
pub struct Indent {
    pub depth: u8,
    pub mask: u32,
}

/// Bit `i` of `mask`.
pub open spec fn last_at(mask: u32, i: nat) -> bool {
    (mask >> (i as u32)) & 1 == 1
}

/// The lines that pass by in front of the first `n` levels.
pub open spec fn passing_lines(mask: u32, n: nat) -> Seq<u8>
    decreases n,
{
    if n == 0 {
        Seq::empty()
    } else {
        passing_lines(mask, (n - 1) as nat) + (if last_at(mask, (n - 1) as nat) {
            utf8_of("  ")
        } else {
            utf8_of("│ ")
        })
    }
}

impl Indent {
    /// How many levels are drawn.
    pub open spec fn drawn(self) -> nat {
        if self.depth <= MASK_LEVELS {
            self.depth as nat
        } else {
            MASK_LEVELS as nat
        }
    }

    /// Whether nothing stands above it.
    pub fn is_root(self) -> (r: bool)
        ensures
            r == (self.depth == 0),
    {
        self.depth == 0
    }

    /// How many levels are drawn: what is deeper than the mask is drawn at its
    /// last level.
    pub fn render_depth(self) -> (r: u32)
        ensures
            r == self.drawn(),
    {
        if self.depth as u32 <= MASK_LEVELS {
            self.depth as u32
        } else {
            MASK_LEVELS
        }
    }

    /// How many columns are drawn.
    pub fn width(self) -> (r: usize)
        ensures
            r == 2 * self.drawn(),
    {
        self.render_depth() as usize * 2
    }
}

impl Put for Indent {
    open spec fn text(&self) -> Seq<u8> {
        if self.drawn() == 0 {
            Seq::empty()
        } else {
            passing_lines(self.mask, (self.drawn() - 1) as nat) + (if last_at(
                self.mask,
                (self.drawn() - 1) as nat,
            ) {
                utf8_of("└─")
            } else {
                utf8_of("├─")
            })
        }
    }

    fn put<W: TinyWriter>(&self, w: &mut W) {
        let mut t: Vec<u8> = Vec::new();
        let depth: u32 = self.render_depth();
        if depth > 0 {
            for i in 0..depth - 1
                invariant
                    1 <= depth <= 32,
                    t@ == passing_lines(self.mask, i as nat),
            {
                let ghost before = t@;
                if (self.mask >> i) & 1 == 1 {
                    t.extend_from_slice("  ".as_bytes());
                    assert(t@ =~= before + utf8_of("  "));
                } else {
                    t.extend_from_slice("│ ".as_bytes());
                    assert(t@ =~= before + utf8_of("│ "));
                }
            }
            let ghost before = t@;
            if (self.mask >> (depth - 1)) & 1 == 1 {
                t.extend_from_slice("└─".as_bytes());
                assert(t@ =~= before + utf8_of("└─"));
            } else {
                t.extend_from_slice("├─".as_bytes());
                assert(t@ =~= before + utf8_of("├─"));
            }
        }
        assert(t@ =~= self.text());
        w.put_bytes(t.as_slice());
    }
}

/// The mask of a place below one with `mask`.
pub open spec fn own_mask(depth: u8, mask: u32, last: bool) -> u32 {
    if 0 < depth <= 32 && last {
        mask | (1u32 << ((depth - 1) as u32))
    } else {
        mask
    }
}

/// One level down.
pub open spec fn deeper(depth: u8) -> u8 {
    if depth < 255 {
        (depth + 1) as u8
    } else {
        255
    }
}

/// What a depth says of a level: what is deeper than 255 is taken for 255.
pub open spec fn depth_of(level: nat) -> u8 {
    if level <= 255 {
        level as u8
    } else {
        255
    }
}

/// `i`, and below it, depth first, all that stands below it, for at most
/// `fuel` levels.
pub open spec fn subtree(
    kids: Seq<Seq<u32>>,
    fuel: nat,
    i: u32,
    depth: u8,
    mask: u32,
    last: bool,
) -> Seq<(Indent, u32)>
    decreases fuel, 0nat,
{
    if fuel == 0 {
        Seq::empty()
    } else {
        let own = own_mask(depth, mask, last);
        seq![(Indent { depth, mask: own }, i)] + siblings(
            kids,
            (fuel - 1) as nat,
            kids[i as int],
            0,
            deeper(depth),
            own,
        )
    }
}

/// The subtrees of `row` from place `k` on, one behind the other.
pub open spec fn siblings(
    kids: Seq<Seq<u32>>,
    fuel: nat,
    row: Seq<u32>,
    k: nat,
    depth: u8,
    mask: u32,
) -> Seq<(Indent, u32)>
    decreases fuel, row.len() - k + 1,
{
    if k >= row.len() {
        Seq::empty()
    } else {
        subtree(kids, fuel, row[k as int], depth, mask, k + 1 == row.len()) + siblings(
            kids,
            fuel,
            row,
            k + 1,
            depth,
            mask,
        )
    }
}

/// The whole subtree of one that stands below nobody.
pub open spec fn whole_tree(kids: Seq<Seq<u32>>, root: u32) -> Seq<(Indent, u32)> {
    subtree(kids, kids.len(), root, 0, 0, true)
}

/// The trees of the first `n`, one behind the other.
pub open spec fn trees(kids: Seq<Seq<u32>>, n: nat) -> Seq<(Indent, u32)>
    decreases n,
{
    if n == 0 {
        Seq::empty()
    } else if parent(kids, (n - 1) as u32) is None {
        trees(kids, (n - 1) as nat) + whole_tree(kids, (n - 1) as u32)
    } else {
        trees(kids, (n - 1) as nat)
    }
}

/// Whoever is listed in the subtree of `i` stands below `i`, or is it.
proof fn lemma_subtree_below(
    kids: Seq<Seq<u32>>,
    fuel: nat,
    i: u32,
    depth: u8,
    mask: u32,
    last: bool,
    k: int,
) -> (d: nat)
    requires
        tree_shaped(kids),
        i < kids.len(),
        0 <= k < subtree(kids, fuel, i, depth, mask, last).len(),
    ensures
        up(kids, subtree(kids, fuel, i, depth, mask, last)[k].1, d) == Some(i),
        subtree(kids, fuel, i, depth, mask, last)[k].1 < kids.len(),
        subtree(kids, fuel, i, depth, mask, last)[k].0.depth == depth_of(depth as nat + d),
        k > 0 ==> d > 0,
    decreases fuel, 0nat,
{
    if k == 0 {
        0
    } else {
        let own = own_mask(depth, mask, last);
        let x = subtree(kids, fuel, i, depth, mask, last)[k].1;
        let (j, e) = lemma_siblings_below(
            kids,
            (fuel - 1) as nat,
            kids[i as int],
            0,
            deeper(depth),
            own,
            i as int,
            k - 1,
        );
        lemma_holds_parent(kids, i as int, kids[i as int][j]);
        lemma_up_add(kids, x, e, 1);
        assert(up(kids, kids[i as int][j], 1) == up(kids, i, 0));
        e + 1
    }
}

proof fn lemma_siblings_below(
    kids: Seq<Seq<u32>>,
    fuel: nat,
    row: Seq<u32>,
    at: nat,
    depth: u8,
    mask: u32,
    b: int,
    k: int,
) -> (r: (int, nat))
    requires
        tree_shaped(kids),
        0 <= b < kids.len(),
        row == kids[b],
        0 <= k < siblings(kids, fuel, row, at, depth, mask).len(),
    ensures
        at <= r.0 < row.len(),
        holds(kids, b, row[r.0]),
        up(kids, siblings(kids, fuel, row, at, depth, mask)[k].1, r.1) == Some(row[r.0]),
        siblings(kids, fuel, row, at, depth, mask)[k].1 < kids.len(),
        siblings(kids, fuel, row, at, depth, mask)[k].0.depth == depth_of(depth as nat + r.1),
    decreases fuel, row.len() - at + 1,
{
    let x = row[at as int];
    assert(row.contains(x));
    assert(holds(kids, b, x));
    let first = subtree(kids, fuel, x, depth, mask, at + 1 == row.len());
    if k < first.len() {
        let d = lemma_subtree_below(kids, fuel, x, depth, mask, at + 1 == row.len(), k);
        (at as int, d)
    } else {
        lemma_siblings_below(kids, fuel, row, at + 1, depth, mask, b, k - first.len())
    }
}

/// Nobody is listed twice in a subtree.
proof fn lemma_subtree_once(
    kids: Seq<Seq<u32>>,
    fuel: nat,
    i: u32,
    depth: u8,
    mask: u32,
    last: bool,
    k: int,
    l: int,
)
    requires
        tree_shaped(kids),
        i < kids.len(),
        rooted(kids, i),
        0 <= k < l < subtree(kids, fuel, i, depth, mask, last).len(),
    ensures
        subtree(kids, fuel, i, depth, mask, last)[k].1 != subtree(
            kids,
            fuel,
            i,
            depth,
            mask,
            last,
        )[l].1,
    decreases fuel, 0nat,
{
    let s = subtree(kids, fuel, i, depth, mask, last);
    if k == 0 {
        let d = lemma_subtree_below(kids, fuel, i, depth, mask, last, l);
        if s[l].1 == i {
            lemma_up_level(kids, i, d);
        }
    } else {
        lemma_siblings_once(
            kids,
            (fuel - 1) as nat,
            kids[i as int],
            0,
            deeper(depth),
            own_mask(depth, mask, last),
            i as int,
            k - 1,
            l - 1,
        );
    }
}

proof fn lemma_siblings_once(
    kids: Seq<Seq<u32>>,
    fuel: nat,
    row: Seq<u32>,
    at: nat,
    depth: u8,
    mask: u32,
    b: int,
    k: int,
    l: int,
)
    requires
        tree_shaped(kids),
        0 <= b < kids.len(),
        row == kids[b],
        rooted(kids, b as u32),
        0 <= k < l < siblings(kids, fuel, row, at, depth, mask).len(),
    ensures
        siblings(kids, fuel, row, at, depth, mask)[k].1 != siblings(
            kids,
            fuel,
            row,
            at,
            depth,
            mask,
        )[l].1,
    decreases fuel, row.len() - at + 1,
{
    let s = siblings(kids, fuel, row, at, depth, mask);
    let x = row[at as int];
    assert(row.contains(x));
    assert(holds(kids, b, x));
    lemma_holds_parent(kids, b, x);
    lemma_child_level(kids, x);
    let last = at + 1 == row.len();
    let first = subtree(kids, fuel, x, depth, mask, last);
    if l < first.len() {
        lemma_subtree_once(kids, fuel, x, depth, mask, last, k, l);
    } else if k >= first.len() {
        lemma_siblings_once(
            kids,
            fuel,
            row,
            at + 1,
            depth,
            mask,
            b,
            k - first.len(),
            l - first.len(),
        );
    } else {
        let d = lemma_subtree_below(kids, fuel, x, depth, mask, last, k);
        let (j, e) = lemma_siblings_below(
            kids,
            fuel,
            row,
            at + 1,
            depth,
            mask,
            b,
            l - first.len(),
        );
        assert(s[l] == siblings(kids, fuel, row, at + 1, depth, mask)[l - first.len()]);
        let y = row[j];
        lemma_holds_parent(kids, b, y);
        lemma_child_level(kids, y);
        if s[k].1 == s[l].1 {
            lemma_below_two(kids, s[k].1, x, y, d, e);
            assert(row.no_duplicates());
        }
    }
}

/// One that stands below two at the same level stands below one.
proof fn lemma_below_two(kids: Seq<Seq<u32>>, z: u32, x: u32, y: u32, d: nat, e: nat)
    requires
        up(kids, z, d) == Some(x),
        up(kids, z, e) == Some(y),
        rooted(kids, x),
        rooted(kids, y),
        level(kids, x) == level(kids, y),
    ensures
        x == y,
{
    let l = level(kids, x);
    assert(has_level(kids, x, l));
    lemma_up_add(kids, z, d, l);
    assert(has_level(kids, z, d + l));
    lemma_level(kids, z, d + l);
    assert(has_level(kids, y, l));
    lemma_up_add(kids, z, e, l);
    assert(has_level(kids, z, e + l));
    lemma_level(kids, z, e + l);
}

/// Nobody is listed twice in all trees.
proof fn lemma_trees_once(kids: Seq<Seq<u32>>, n: nat, k: int, l: int)
    requires
        tree_shaped(kids),
        n <= kids.len(),
        0 <= k < l < trees(kids, n).len(),
    ensures
        trees(kids, n)[k].1 != trees(kids, n)[l].1,
    decreases n,
{
    let before = trees(kids, (n - 1) as nat);
    if l < before.len() {
        lemma_trees_once(kids, (n - 1) as nat, k, l);
    } else {
        let r = (n - 1) as u32;
        lemma_top_level(kids, r);
        if k >= before.len() {
            lemma_subtree_once(
                kids,
                kids.len(),
                r,
                0,
                0,
                true,
                k - before.len(),
                l - before.len(),
            );
        } else {
            let e = lemma_subtree_below(kids, kids.len(), r, 0, 0, true, l - before.len());
            let (q, d) = lemma_trees_below(kids, (n - 1) as nat, k);
            assert(trees(kids, n)[k] == before[k]);
            lemma_top_level(kids, q);
            if trees(kids, n)[k].1 == trees(kids, n)[l].1 {
                lemma_below_two(kids, before[k].1, q, r, d, e);
            }
        }
    }
}

/// Whoever is listed stands in the tree of one at the top.
proof fn lemma_trees_below(kids: Seq<Seq<u32>>, n: nat, k: int) -> (r: (u32, nat))
    requires
        tree_shaped(kids),
        n <= kids.len(),
        0 <= k < trees(kids, n).len(),
    ensures
        r.0 < n,
        parent(kids, r.0) is None,
        up(kids, trees(kids, n)[k].1, r.1) == Some(r.0),
        trees(kids, n)[k].1 < kids.len(),
        trees(kids, n)[k].0.depth == depth_of(r.1),
    decreases n,
{
    let before = trees(kids, (n - 1) as nat);
    if k < before.len() {
        lemma_trees_below(kids, (n - 1) as nat, k)
    } else {
        let r = (n - 1) as u32;
        let d = lemma_subtree_below(kids, kids.len(), r, 0, 0, true, k - before.len());
        (r, d)
    }
}

/// The depth of an entry is the number of its ancestors, as far as a depth can
/// tell it.
pub proof fn law_depth_counts_ancestors(kids: Seq<Seq<u32>>, n: nat, k: int)
    requires
        tree_shaped(kids),
        n <= kids.len(),
        0 <= k < trees(kids, n).len(),
    ensures
        rooted(kids, trees(kids, n)[k].1),
        trees(kids, n)[k].0.depth == depth_of(level(kids, trees(kids, n)[k].1)),
{
    let (_, d) = lemma_trees_below(kids, n, k);
    lemma_level(kids, trees(kids, n)[k].1, d);
}

/// The trees list each number at most once, and only numbers in the list.
pub proof fn law_trees_list_once(kids: Seq<Seq<u32>>, n: nat)
    requires
        tree_shaped(kids),
        n <= kids.len(),
    ensures
        trees(kids, n).len() <= kids.len(),
        forall|k: int| 0 <= k < trees(kids, n).len() ==> (#[trigger] trees(kids, n)[k]).1 < kids.len(),
        forall|k: int, l: int|
            0 <= k < l < trees(kids, n).len() ==> (#[trigger] trees(kids, n)[k]).1 != (
            #[trigger] trees(kids, n)[l]).1,
{
    let all = trees(kids, n);
    let nums = all.map_values(|e: (Indent, u32)| e.1);
    assert forall|k: int| 0 <= k < all.len() implies (#[trigger] all[k]).1 < kids.len() by {
        let _ = lemma_trees_below(kids, n, k);
    }
    assert forall|k: int, l: int| 0 <= k < l < all.len() implies (#[trigger] all[k]).1 != (
    #[trigger] all[l]).1 by {
        lemma_trees_once(kids, n, k, l);
    }
    assert(nums.no_duplicates()) by {
        assert forall|k: int, l: int| 0 <= k < nums.len() && 0 <= l < nums.len() && k != l implies
            nums[k] != nums[l] by {
            if k < l {
                assert(all[k].1 != all[l].1);
            } else {
                assert(all[l].1 != all[k].1);
            }
        }
    }
    assert forall|k: int| 0 <= k < nums.len() implies #[trigger] nums[k] < kids.len() by {
        assert(all[k].1 < kids.len());
    }
    lemma_few_below(nums, kids.len());
}

/// Whoever stands below `i`, less than `fuel` steps down, is listed in its
/// subtree.
proof fn lemma_subtree_lists(
    kids: Seq<Seq<u32>>,
    fuel: nat,
    i: u32,
    depth: u8,
    mask: u32,
    last: bool,
    x: u32,
    d: nat,
) -> (k: int)
    requires
        tree_shaped(kids),
        i < kids.len(),
        up(kids, x, d) == Some(i),
        d < fuel,
    ensures
        0 <= k < subtree(kids, fuel, i, depth, mask, last).len(),
        subtree(kids, fuel, i, depth, mask, last)[k].1 == x,
    decreases d,
{
    let s = subtree(kids, fuel, i, depth, mask, last);
    if d == 0 {
        0
    } else {
        let e = (d - 1) as nat;
        lemma_up_shorter(kids, x, e, d);
        let y = up(kids, x, e)->0;
        lemma_up_add(kids, x, e, 1);
        assert(up(kids, y, 1) == Some(i));
        assert(parent(kids, y) == Some(i)) by {
            if parent(kids, y) is Some {
                assert(up(kids, parent(kids, y)->0, 0) == Some(parent(kids, y)->0));
            }
        }
        lemma_parent_holds(kids, y);
        let row = kids[i as int];
        let j = choose|j: int| 0 <= j < row.len() && row[j] == y;
        let own = own_mask(depth, mask, last);
        let k = lemma_subtree_lists(
            kids,
            (fuel - 1) as nat,
            y,
            deeper(depth),
            own,
            j + 1 == row.len(),
            x,
            e,
        );
        let m = lemma_siblings_list(kids, (fuel - 1) as nat, row, 0, deeper(depth), own, j, k);
        assert(s[m + 1] == siblings(kids, (fuel - 1) as nat, row, 0, deeper(depth), own)[m]);
        m + 1
    }
}

/// What the subtree of one of `row` lists is listed.
proof fn lemma_siblings_list(
    kids: Seq<Seq<u32>>,
    fuel: nat,
    row: Seq<u32>,
    at: nat,
    depth: u8,
    mask: u32,
    j: int,
    k: int,
) -> (m: int)
    requires
        at <= j < row.len(),
        0 <= k < subtree(kids, fuel, row[j], depth, mask, j + 1 == row.len()).len(),
    ensures
        0 <= m < siblings(kids, fuel, row, at, depth, mask).len(),
        siblings(kids, fuel, row, at, depth, mask)[m] == subtree(
            kids,
            fuel,
            row[j],
            depth,
            mask,
            j + 1 == row.len(),
        )[k],
    decreases j - at,
{
    let first = subtree(kids, fuel, row[at as int], depth, mask, at + 1 == row.len());
    if at == j {
        k
    } else {
        let m = lemma_siblings_list(kids, fuel, row, at + 1, depth, mask, j, k);
        m + first.len()
    }
}

/// Every number that stands below one at the top is listed in the trees, and
/// no other.
pub proof fn law_trees_list_all(kids: Seq<Seq<u32>>, x: u32)
    requires
        tree_shaped(kids),
        x < kids.len(),
    ensures
        rooted(kids, x) <==> exists|k: int|
            0 <= k < trees(kids, kids.len()).len() && (#[trigger] trees(kids, kids.len())[k]).1 == x,
{
    let all = trees(kids, kids.len());
    if rooted(kids, x) {
        let l = level(kids, x);
        assert(has_level(kids, x, l));
        let r = up(kids, x, l)->0;
        lemma_up_in_list(kids, x, l);
        lemma_level_bounded(kids, x);
        let k = lemma_subtree_lists(kids, kids.len(), r, 0, 0, true, x, l);
        let m = lemma_trees_hold(kids, kids.len(), r, k);
        assert(all[m].1 == x);
    }
    if exists|k: int| 0 <= k < all.len() && (#[trigger] all[k]).1 == x {
        let k = choose|k: int| 0 <= k < all.len() && (#[trigger] all[k]).1 == x;
        let (r, d) = lemma_trees_below(kids, kids.len(), k);
        assert(has_level(kids, x, d));
    }
}

/// The tree of one at the top is among the trees.
proof fn lemma_trees_hold(kids: Seq<Seq<u32>>, n: nat, r: u32, k: int) -> (m: int)
    requires
        r < n <= u32::MAX,
        parent(kids, r) is None,
        0 <= k < whole_tree(kids, r).len(),
    ensures
        0 <= m < trees(kids, n).len(),
        trees(kids, n)[m] == whole_tree(kids, r)[k],
    decreases n,
{
    let before = trees(kids, (n - 1) as nat);
    if r == n - 1 {
        before.len() + k
    } else {
        lemma_trees_hold(kids, (n - 1) as nat, r, k)
    }
}

/// No level from `depth` on is marked.
spec fn marks_end(mask: u32, depth: u8) -> bool {
    depth < 32 ==> mask >> (depth as u32) == 0
}

/// A place marks its own level if it is the last there, and leaves the marks of
/// the levels above as they are.
pub proof fn law_own_mark(depth: u8, mask: u32, last: bool)
    requires
        0 < depth <= 32,
        mask >> ((depth - 1) as u32) == 0,
    ensures
        last_at(own_mask(depth, mask, last), (depth - 1) as nat) == last,
        forall|i: u32|
            i < depth - 1 ==> (#[trigger] (own_mask(depth, mask, last) >> i)) & 1 == (mask >> i)
                & 1,
        depth < 32 ==> own_mask(depth, mask, last) >> (depth as u32) == 0,
{
    let s = (depth - 1) as u32;
    let own = own_mask(depth, mask, last);
    assert(mask >> s == 0 && s < 32 ==> ((mask | (1u32 << s)) >> s) & 1 == 1) by (bit_vector);
    assert(mask >> s == 0 ==> (mask >> s) & 1 == 0) by (bit_vector);
    assert forall|i: u32| i < depth - 1 implies (#[trigger] (own >> i)) & 1 == (mask >> i) & 1 by {
        assert(i < s && s < 32 ==> ((mask | (1u32 << s)) >> i) & 1 == (mask >> i) & 1)
            by (bit_vector);
    }
    if depth < 32 {
        let t = depth as u32;
        assert(s < 31 && t == s + 1 && mask >> s == 0 ==> (mask | (1u32 << s)) >> t == 0 && mask >> t
            == 0) by (bit_vector);
    }
}

/// `e` marks its own level exactly if it is the last of its parent's children.
pub open spec fn marked_right(kids: Seq<Seq<u32>>, e: (Indent, u32)) -> bool {
    0 < e.0.depth <= 32 ==> match parent(kids, e.1) {
        Some(p) => last_at(e.0.mask, (e.0.depth - 1) as nat) == (kids[p as int].last() == e.1),
        None => false,
    }
}

proof fn lemma_subtree_marks(
    kids: Seq<Seq<u32>>,
    fuel: nat,
    i: u32,
    depth: u8,
    mask: u32,
    last: bool,
    k: int,
)
    requires
        tree_shaped(kids),
        i < kids.len(),
        depth == 0 ==> mask == 0,
        depth > 0 ==> marks_end(mask, (depth - 1) as u8),
        depth > 0 ==> match parent(kids, i) {
            Some(p) => last == (kids[p as int].last() == i),
            None => false,
        },
        0 <= k < subtree(kids, fuel, i, depth, mask, last).len(),
    ensures
        marked_right(kids, subtree(kids, fuel, i, depth, mask, last)[k]),
    decreases fuel, 0nat,
{
    let own = own_mask(depth, mask, last);
    if depth > 0 && depth <= 32 {
        law_own_mark(depth, mask, last);
    }
    if k > 0 {
        if depth == 0 {
            assert(0u32 >> 0u32 == 0) by (bit_vector);
        }
        lemma_siblings_marks(
            kids,
            (fuel - 1) as nat,
            i as int,
            0,
            deeper(depth),
            own,
            k - 1,
        );
    }
}

proof fn lemma_siblings_marks(
    kids: Seq<Seq<u32>>,
    fuel: nat,
    b: int,
    at: nat,
    depth: u8,
    mask: u32,
    k: int,
)
    requires
        tree_shaped(kids),
        0 <= b < kids.len(),
        depth > 0,
        marks_end(mask, (depth - 1) as u8),
        0 <= k < siblings(kids, fuel, kids[b], at, depth, mask).len(),
    ensures
        marked_right(kids, siblings(kids, fuel, kids[b], at, depth, mask)[k]),
    decreases fuel, kids[b].len() - at + 1,
{
    let row = kids[b];
    let x = row[at as int];
    assert(row.contains(x));
    assert(holds(kids, b, x));
    lemma_holds_parent(kids, b, x);
    let last = at + 1 == row.len();
    let first = subtree(kids, fuel, x, depth, mask, last);
    if k < first.len() {
        assert(row.no_duplicates());
        assert(last == (row.last() == x));
        lemma_subtree_marks(kids, fuel, x, depth, mask, last, k);
    } else {
        lemma_siblings_marks(kids, fuel, b, at + 1, depth, mask, k - first.len());
    }
}

/// As far as the levels are drawn, the line in front of each entry ends exactly
/// if it is the last of its parent's children.
pub proof fn law_last_child_ends_the_line(kids: Seq<Seq<u32>>, n: nat, k: int)
    requires
        tree_shaped(kids),
        n <= kids.len(),
        0 <= k < trees(kids, n).len(),
    ensures
        marked_right(kids, trees(kids, n)[k]),
    decreases n,
{
    let before = trees(kids, (n - 1) as nat);
    if k < before.len() {
        law_last_child_ends_the_line(kids, (n - 1) as nat, k);
    } else {
        lemma_subtree_marks(kids, kids.len(), (n - 1) as u32, 0, 0, true, k - before.len());
    }
}

/// `x` is the last of its parent's children.
pub open spec fn is_last_child(kids: Seq<Seq<u32>>, x: u32) -> bool {
    match parent(kids, x) {
        Some(p) => kids[p as int].last() == x,
        None => false,
    }
}

/// For every level down to that of `x`, `mask` marks it exactly if the line
/// ends there: if the ancestor of `x` at that level, or `x` itself, is the last
/// of its parent's children.
pub open spec fn marks_line(kids: Seq<Seq<u32>>, x: u32, mask: u32) -> bool {
    forall|i: nat|
        i < level(kids, x) && i < 32 ==> #[trigger] last_at(mask, i) == is_last_child(
            kids,
            up(kids, x, (level(kids, x) - 1 - i) as nat)->0,
        )
}

/// The own mask of `i` marks its line, if the mask above it marks that of its
/// parent.
proof fn lemma_own_line(kids: Seq<Seq<u32>>, i: u32, depth: u8, mask: u32, last: bool)
    requires
        rooted(kids, i),
        depth == depth_of(level(kids, i)),
        level(kids, i) == 0 ==> mask == 0,
        level(kids, i) > 0 ==> parent(kids, i) is Some && marks_line(
            kids,
            parent(kids, i)->0,
            mask,
        ) && last == is_last_child(kids, i),
        0 < level(kids, i) <= 32 ==> mask >> ((level(kids, i) - 1) as u32) == 0,
    ensures
        marks_line(kids, i, own_mask(depth, mask, last)),
        level(kids, i) == 0 ==> own_mask(depth, mask, last) == 0,
        level(kids, i) < 32 ==> own_mask(depth, mask, last) >> (level(kids, i) as u32) == 0,
{
    let own = own_mask(depth, mask, last);
    let lv = level(kids, i);
    if lv == 0 {
        assert(0u32 >> 0u32 == 0) by (bit_vector);
    } else {
        let p = parent(kids, i)->0;
        lemma_child_level(kids, i);
        if lv <= 32 {
            law_own_mark(depth, mask, last);
        }
        assert forall|j: nat| j < lv && j < 32 implies #[trigger] last_at(own, j) == is_last_child(
            kids,
            up(kids, i, (lv - 1 - j) as nat)->0,
        ) by {
            if j == lv - 1 {
                assert(up(kids, i, 0) == Some(i));
            } else {
                assert(last_at(mask, j) == is_last_child(
                    kids,
                    up(kids, p, (level(kids, p) - 1 - j) as nat)->0,
                ));
                assert(up(kids, i, (lv - 1 - j) as nat) == up(kids, p, (lv - 2 - j) as nat));
                if lv <= 32 {
                    let w = j as u32;
                    assert((own >> w) & 1 == (mask >> w) & 1);
                }
            }
        }
    }
}

proof fn lemma_subtree_lines(
    kids: Seq<Seq<u32>>,
    fuel: nat,
    i: u32,
    depth: u8,
    mask: u32,
    last: bool,
    k: int,
)
    requires
        tree_shaped(kids),
        i < kids.len(),
        rooted(kids, i),
        depth == depth_of(level(kids, i)),
        level(kids, i) == 0 ==> mask == 0,
        level(kids, i) > 0 ==> parent(kids, i) is Some && marks_line(
            kids,
            parent(kids, i)->0,
            mask,
        ) && last == is_last_child(kids, i),
        0 < level(kids, i) <= 32 ==> mask >> ((level(kids, i) - 1) as u32) == 0,
        0 <= k < subtree(kids, fuel, i, depth, mask, last).len(),
    ensures
        marks_line(
            kids,
            subtree(kids, fuel, i, depth, mask, last)[k].1,
            subtree(kids, fuel, i, depth, mask, last)[k].0.mask,
        ),
    decreases fuel, 0nat,
{
    lemma_own_line(kids, i, depth, mask, last);
    if k > 0 {
        lemma_siblings_lines(
            kids,
            (fuel - 1) as nat,
            i,
            0,
            deeper(depth),
            own_mask(depth, mask, last),
            k - 1,
        );
    }
}

proof fn lemma_siblings_lines(
    kids: Seq<Seq<u32>>,
    fuel: nat,
    b: u32,
    at: nat,
    depth: u8,
    mask: u32,
    k: int,
)
    requires
        tree_shaped(kids),
        b < kids.len(),
        rooted(kids, b),
        depth == depth_of(level(kids, b) + 1),
        marks_line(kids, b, mask),
        level(kids, b) < 32 ==> mask >> (level(kids, b) as u32) == 0,
        0 <= k < siblings(kids, fuel, kids[b as int], at, depth, mask).len(),
    ensures
        marks_line(
            kids,
            siblings(kids, fuel, kids[b as int], at, depth, mask)[k].1,
            siblings(kids, fuel, kids[b as int], at, depth, mask)[k].0.mask,
        ),
    decreases fuel, kids[b as int].len() - at + 1,
{
    let row = kids[b as int];
    let x = row[at as int];
    assert(row.contains(x));
    assert(holds(kids, b as int, x));
    lemma_holds_parent(kids, b as int, x);
    lemma_child_level(kids, x);
    let last = at + 1 == row.len();
    let first = subtree(kids, fuel, x, depth, mask, last);
    if k < first.len() {
        assert(row.no_duplicates());
        assert(last == (row.last() == x));
        lemma_subtree_lines(kids, fuel, x, depth, mask, last, k);
    } else {
        lemma_siblings_lines(kids, fuel, b, at + 1, depth, mask, k - first.len());
    }
}

proof fn lemma_trees_lines(kids: Seq<Seq<u32>>, n: nat, k: int)
    requires
        tree_shaped(kids),
        n <= kids.len(),
        0 <= k < trees(kids, n).len(),
    ensures
        marks_line(kids, trees(kids, n)[k].1, trees(kids, n)[k].0.mask),
    decreases n,
{
    let before = trees(kids, (n - 1) as nat);
    if k < before.len() {
        lemma_trees_lines(kids, (n - 1) as nat, k);
    } else {
        let r = (n - 1) as u32;
        lemma_top_level(kids, r);
        lemma_subtree_lines(kids, kids.len(), r, 0, 0, true, k - before.len());
    }
}

/// The parent of an entry is the last one before it that is less deep.
proof fn lemma_subtree_parent_before(
    kids: Seq<Seq<u32>>,
    fuel: nat,
    i: u32,
    depth: u8,
    mask: u32,
    last: bool,
    k: int,
) -> (j: int)
    requires
        tree_shaped(kids),
        i < kids.len(),
        rooted(kids, i),
        0 < k < subtree(kids, fuel, i, depth, mask, last).len(),
    ensures
        0 <= j < k,
        ({
            let s = subtree(kids, fuel, i, depth, mask, last);
            &&& parent(kids, s[k].1) == Some(s[j].1)
            &&& forall|m: int| j < m < k ==> (#[trigger] s[m]).0.depth >= s[k].0.depth
        }),
    decreases fuel, 0nat,
{
    let own = own_mask(depth, mask, last);
    let s = subtree(kids, fuel, i, depth, mask, last);
    let below = siblings(kids, (fuel - 1) as nat, kids[i as int], 0, deeper(depth), own);
    assert(s =~= seq![s[0]] + below);
    let j = lemma_siblings_parent_before(
        kids,
        (fuel - 1) as nat,
        i as int,
        0,
        deeper(depth),
        own,
        k - 1,
    );
    assert forall|m: int| j + 1 < m < k implies (#[trigger] s[m]).0.depth >= s[k].0.depth by {
        assert(s[m] == below[m - 1]);
    }
    j + 1
}

proof fn lemma_siblings_parent_before(
    kids: Seq<Seq<u32>>,
    fuel: nat,
    b: int,
    at: nat,
    depth: u8,
    mask: u32,
    k: int,
) -> (j: int)
    requires
        tree_shaped(kids),
        0 <= b < kids.len(),
        rooted(kids, b as u32),
        0 <= k < siblings(kids, fuel, kids[b], at, depth, mask).len(),
    ensures
        -1 <= j < k,
        ({
            let s = siblings(kids, fuel, kids[b], at, depth, mask);
            &&& parent(kids, s[k].1) == Some(
                if j < 0 {
                    b as u32
                } else {
                    s[j].1
                },
            )
            &&& forall|m: int| j < m < k ==> (#[trigger] s[m]).0.depth >= s[k].0.depth
        }),
    decreases fuel, kids[b].len() - at + 1,
{
    let row = kids[b];
    let s = siblings(kids, fuel, row, at, depth, mask);
    let x = row[at as int];
    assert(row.contains(x));
    assert(holds(kids, b, x));
    lemma_holds_parent(kids, b, x);
    let last = at + 1 == row.len();
    let first = subtree(kids, fuel, x, depth, mask, last);
    let rest = siblings(kids, fuel, row, at + 1, depth, mask);
    assert(s =~= first + rest);
    lemma_child_level(kids, x);
    if k == 0 && first.len() > 0 {
        -1
    } else if k < first.len() {
        let j = lemma_subtree_parent_before(kids, fuel, x, depth, mask, last, k);
        assert forall|m: int| j < m < k implies (#[trigger] s[m]).0.depth >= s[k].0.depth by {
            assert(s[m] == first[m]);
        }
        j
    } else {
        let j = lemma_siblings_parent_before(kids, fuel, b, at + 1, depth, mask, k - first.len());
        let (_, e) = lemma_siblings_below(kids, fuel, row, at, depth, mask, b, k);
        if j < 0 {
            assert forall|m: int| -1 < m < k implies (#[trigger] s[m]).0.depth >= s[k].0.depth by {
                if m < first.len() {
                    let _ = lemma_subtree_below(kids, fuel, x, depth, mask, last, m);
                    assert(s[m] == first[m]);
                    lemma_row_depth(kids, fuel, b, at + 1, depth, mask, k - first.len());
                } else {
                    assert(s[m] == rest[m - first.len()]);
                }
            }
            -1
        } else {
            assert forall|m: int| j + first.len() < m < k implies (#[trigger] s[m]).0.depth
                >= s[k].0.depth by {
                assert(s[m] == rest[m - first.len()]);
            }
            j + first.len()
        }
    }
}

/// An entry of `row` itself stands at the depth of the row.
proof fn lemma_row_depth(
    kids: Seq<Seq<u32>>,
    fuel: nat,
    b: int,
    at: nat,
    depth: u8,
    mask: u32,
    k: int,
)
    requires
        tree_shaped(kids),
        0 <= b < kids.len(),
        0 <= k < siblings(kids, fuel, kids[b], at, depth, mask).len(),
        parent(kids, siblings(kids, fuel, kids[b], at, depth, mask)[k].1) == Some(b as u32),
        rooted(kids, b as u32),
    ensures
        siblings(kids, fuel, kids[b], at, depth, mask)[k].0.depth == depth,
{
    let row = kids[b];
    let z = siblings(kids, fuel, row, at, depth, mask)[k].1;
    let (j, e) = lemma_siblings_below(kids, fuel, row, at, depth, mask, b, k);
    let y = row[j];
    lemma_holds_parent(kids, b, y);
    lemma_child_level(kids, y);
    lemma_child_level(kids, z);
    lemma_up_level(kids, z, e);
}

/// Rows are in ascending order.
spec fn rows_ascend(kids: Seq<Seq<u32>>) -> bool {
    forall|b: int, i: int, j: int|
        0 <= b < kids.len() && 0 <= i < j < kids[b].len() ==> (#[trigger] kids[b][i]) < (
        #[trigger] kids[b][j])
}

/// Of two with one parent, the one that is listed first comes first in their
/// row.
proof fn lemma_subtree_order(
    kids: Seq<Seq<u32>>,
    fuel: nat,
    i: u32,
    depth: u8,
    mask: u32,
    last: bool,
    k: int,
    l: int,
)
    requires
        tree_shaped(kids),
        rows_ascend(kids),
        i < kids.len(),
        rooted(kids, i),
        0 <= k < l < subtree(kids, fuel, i, depth, mask, last).len(),
        parent(kids, subtree(kids, fuel, i, depth, mask, last)[k].1) == parent(
            kids,
            subtree(kids, fuel, i, depth, mask, last)[l].1,
        ),
    ensures
        subtree(kids, fuel, i, depth, mask, last)[k].1 < subtree(
            kids,
            fuel,
            i,
            depth,
            mask,
            last,
        )[l].1,
    decreases fuel, 0nat,
{
    let s = subtree(kids, fuel, i, depth, mask, last);
    if k == 0 {
        let d = lemma_subtree_below(kids, fuel, i, depth, mask, last, l);
        let y = s[l].1;
        assert(parent(kids, y) is Some);
        lemma_child_level(kids, i);
        lemma_child_level(kids, y);
        lemma_same_level(kids, i, y);
        lemma_rooted_below(kids, y, d);
        lemma_up_level(kids, y, d);
    } else {
        lemma_siblings_order(
            kids,
            (fuel - 1) as nat,
            i as int,
            0,
            deeper(depth),
            own_mask(depth, mask, last),
            k - 1,
            l - 1,
        );
    }
}

/// Who stands below one in a tree stands in the tree.
proof fn lemma_rooted_below(kids: Seq<Seq<u32>>, z: u32, d: nat)
    requires
        up(kids, z, d) is Some,
        rooted(kids, up(kids, z, d)->0),
    ensures
        rooted(kids, z),
{
    let x = up(kids, z, d)->0;
    let l = level(kids, x);
    assert(has_level(kids, x, l));
    lemma_up_add(kids, z, d, l);
    assert(has_level(kids, z, d + l));
    lemma_level(kids, z, d + l);
}

/// Two with one parent stand at one level.
proof fn lemma_same_level(kids: Seq<Seq<u32>>, x: u32, y: u32)
    requires
        parent(kids, x) == parent(kids, y),
        parent(kids, x) is Some,
        rooted(kids, x),
    ensures
        rooted(kids, y),
        level(kids, x) == level(kids, y),
{
    lemma_child_level(kids, x);
    lemma_child_level(kids, y);
}

proof fn lemma_siblings_order(
    kids: Seq<Seq<u32>>,
    fuel: nat,
    b: int,
    at: nat,
    depth: u8,
    mask: u32,
    k: int,
    l: int,
)
    requires
        tree_shaped(kids),
        rows_ascend(kids),
        0 <= b < kids.len(),
        rooted(kids, b as u32),
        0 <= k < l < siblings(kids, fuel, kids[b], at, depth, mask).len(),
        parent(kids, siblings(kids, fuel, kids[b], at, depth, mask)[k].1) == parent(
            kids,
            siblings(kids, fuel, kids[b], at, depth, mask)[l].1,
        ),
    ensures
        siblings(kids, fuel, kids[b], at, depth, mask)[k].1 < siblings(
            kids,
            fuel,
            kids[b],
            at,
            depth,
            mask,
        )[l].1,
    decreases fuel, kids[b].len() - at + 1,
{
    let row = kids[b];
    let s = siblings(kids, fuel, row, at, depth, mask);
    let x = row[at as int];
    assert(row.contains(x));
    assert(holds(kids, b, x));
    lemma_holds_parent(kids, b, x);
    lemma_child_level(kids, x);
    let last = at + 1 == row.len();
    let first = subtree(kids, fuel, x, depth, mask, last);
    let rest = siblings(kids, fuel, row, at + 1, depth, mask);
    assert(s =~= first + rest);
    if l < first.len() {
        lemma_subtree_order(kids, fuel, x, depth, mask, last, k, l);
    } else if k >= first.len() {
        lemma_siblings_order(
            kids,
            fuel,
            b,
            at + 1,
            depth,
            mask,
            k - first.len(),
            l - first.len(),
        );
    } else {
        let d = lemma_subtree_below(kids, fuel, x, depth, mask, last, k);
        let (j, e) = lemma_siblings_below(kids, fuel, row, at + 1, depth, mask, b, l - first.len());
        let u = s[k].1;
        let v = s[l].1;
        assert(u == first[k].1);
        assert(v == rest[l - first.len()].1);
        let y = row[j];
        lemma_holds_parent(kids, b, y);
        lemma_child_level(kids, y);
        lemma_rooted_below(kids, u, d);
        lemma_rooted_below(kids, v, e);
        lemma_up_level(kids, u, d);
        lemma_up_level(kids, v, e);
        if parent(kids, u) is Some {
            lemma_same_level(kids, u, v);
        }
        if d == 0 {
            assert(u == x);
            assert(e == 0) by {
                assert(parent(kids, u) == Some(b as u32));
            }
            assert(v == y);
            assert(kids[b][at as int] < kids[b][j]);
        } else {
            assert(e == d);
            let q = parent(kids, u)->0;
            assert(up(kids, q, (d - 1) as nat) == Some(x));
            assert(up(kids, q, (e - 1) as nat) == Some(y));
            assert(row.no_duplicates());
            assert(x == y);
        }
    }
}

proof fn lemma_trees_order(kids: Seq<Seq<u32>>, n: nat, k: int, l: int)
    requires
        tree_shaped(kids),
        rows_ascend(kids),
        n <= kids.len(),
        0 <= k < l < trees(kids, n).len(),
        parent(kids, trees(kids, n)[k].1) == parent(kids, trees(kids, n)[l].1),
    ensures
        trees(kids, n)[k].1 < trees(kids, n)[l].1,
    decreases n,
{
    let before = trees(kids, (n - 1) as nat);
    if l < before.len() {
        lemma_trees_order(kids, (n - 1) as nat, k, l);
    } else {
        let r = (n - 1) as u32;
        lemma_top_level(kids, r);
        if k >= before.len() {
            lemma_subtree_order(
                kids,
                kids.len(),
                r,
                0,
                0,
                true,
                k - before.len(),
                l - before.len(),
            );
        } else {
            let u = trees(kids, n)[k].1;
            let v = trees(kids, n)[l].1;
            assert(u == before[k].1);
            let (q, d) = lemma_trees_below(kids, (n - 1) as nat, k);
            let e = lemma_subtree_below(kids, kids.len(), r, 0, 0, true, l - before.len());
            lemma_top_level(kids, q);
            lemma_level(kids, u, d);
            assert(has_level(kids, v, e));
            lemma_level(kids, v, e);
            if parent(kids, u) is Some {
                lemma_same_level(kids, u, v);
                let p = parent(kids, u)->0;
                assert(d > 0 && e > 0);
                assert(up(kids, p, (d - 1) as nat) == Some(q));
                assert(up(kids, p, (e - 1) as nat) == Some(r));
            } else {
                assert(d == 0 && e == 0);
            }
        }
    }
}

proof fn lemma_trees_parent_before(kids: Seq<Seq<u32>>, n: nat, k: int) -> (j: int)
    requires
        tree_shaped(kids),
        n <= kids.len(),
        0 <= k < trees(kids, n).len(),
        parent(kids, trees(kids, n)[k].1) is Some,
    ensures
        0 <= j < k,
        ({
            let s = trees(kids, n);
            &&& parent(kids, s[k].1) == Some(s[j].1)
            &&& forall|m: int| j < m < k ==> (#[trigger] s[m]).0.depth >= s[k].0.depth
        }),
    decreases n,
{
    let s = trees(kids, n);
    let before = trees(kids, (n - 1) as nat);
    if k < before.len() {
        let j = lemma_trees_parent_before(kids, (n - 1) as nat, k);
        assert forall|m: int| j < m < k implies (#[trigger] s[m]).0.depth >= s[k].0.depth by {
            assert(s[m] == before[m]);
        }
        j
    } else {
        let r = (n - 1) as u32;
        lemma_top_level(kids, r);
        let one = whole_tree(kids, r);
        let at = k - before.len();
        assert(s[k] == one[at]);
        assert(one[0].1 == r);
        let j = lemma_subtree_parent_before(kids, kids.len(), r, 0, 0, true, at);
        assert forall|m: int| j + before.len() < m < k implies (#[trigger] s[m]).0.depth
            >= s[k].0.depth by {
            assert(s[m] == one[m - before.len()]);
        }
        j + before.len()
    }
}

/// A tree lists no more than there are.
proof fn lemma_whole_tree_few(kids: Seq<Seq<u32>>, root: u32)
    requires
        tree_shaped(kids),
        root < kids.len(),
        parent(kids, root) is None,
    ensures
        whole_tree(kids, root).len() <= kids.len(),
{
    let all = whole_tree(kids, root);
    let nums = all.map_values(|e: (Indent, u32)| e.1);
    lemma_top_level(kids, root);
    assert(nums.no_duplicates()) by {
        assert forall|k: int, l: int| 0 <= k < nums.len() && 0 <= l < nums.len() && k != l implies
            nums[k] != nums[l] by {
            if k < l {
                lemma_subtree_once(kids, kids.len(), root, 0, 0, true, k, l);
            } else {
                lemma_subtree_once(kids, kids.len(), root, 0, 0, true, l, k);
            }
        }
    }
    assert forall|k: int| 0 <= k < nums.len() implies #[trigger] nums[k] < kids.len() by {
        let _ = lemma_subtree_below(kids, kids.len(), root, 0, 0, true, k);
    }
    lemma_few_below(nums, kids.len());
}

/// What is still to be listed when `stack` is waiting: the subtrees of what
/// waits, the last first.
spec fn waiting(kids: Seq<Seq<u32>>, stack: Seq<(u32, u8, u32, bool)>) -> Seq<(Indent, u32)>
    decreases stack.len(),
{
    if stack.len() == 0 {
        Seq::empty()
    } else {
        let (i, depth, mask, last) = stack.last();
        subtree(kids, (kids.len() - level(kids, i)) as nat, i, depth, mask, last) + waiting(
            kids,
            stack.drop_last(),
        )
    }
}

/// Everyone who waits is in the list and stands below one at the top.
spec fn all_rooted(kids: Seq<Seq<u32>>, stack: Seq<(u32, u8, u32, bool)>) -> bool {
    forall|k: int|
        0 <= k < stack.len() ==> (#[trigger] stack[k]).0 < kids.len() && rooted(kids, stack[k].0)
}

/// At least as many are to be listed as wait.
proof fn lemma_waiting_len(kids: Seq<Seq<u32>>, stack: Seq<(u32, u8, u32, bool)>)
    requires
        tree_shaped(kids),
        all_rooted(kids, stack),
    ensures
        waiting(kids, stack).len() >= stack.len(),
    decreases stack.len(),
{
    if stack.len() > 0 {
        let last = stack.last();
        assert(stack[stack.len() - 1] == last);
        lemma_level_bounded(kids, last.0);
        assert(all_rooted(kids, stack.drop_last())) by {
            assert forall|k: int| 0 <= k < stack.drop_last().len() implies (
            #[trigger] stack.drop_last()[k]).0 < kids.len() && rooted(
                kids,
                stack.drop_last()[k].0,
            ) by {
                assert(stack.drop_last()[k] == stack[k]);
            }
        }
        lemma_waiting_len(kids, stack.drop_last());
    }
}

/// Puts those of `row` on the stack, so that the first comes out first.
fn push_row(
    row: &[u32],
    depth: u8,
    mask: u32,
    stack: &mut FVec<'_, (u32, u8, u32, bool)>,
    Ghost(kids): Ghost<Seq<Seq<u32>>>,
    Ghost(b): Ghost<u32>,
)
    requires
        tree_shaped(kids),
        b < kids.len(),
        rooted(kids, b),
        row@ == kids[b as int],
        old(stack).wf(),
        all_rooted(kids, old(stack)@),
        siblings(kids, (kids.len() - level(kids, b) - 1) as nat, row@, 0, depth, mask).len()
            + waiting(kids, old(stack)@).len() <= old(stack).cap(),
    ensures
        final(stack).wf(),
        final(stack).same_room(old(stack)),
        all_rooted(kids, final(stack)@),
        waiting(kids, final(stack)@) == siblings(
            kids,
            (kids.len() - level(kids, b) - 1) as nat,
            row@,
            0,
            depth,
            mask,
        ) + waiting(kids, old(stack)@),
{
    let ghost fuel = (kids.len() - level(kids, b) - 1) as nat;
    let ghost rest = waiting(kids, stack@);
    let mut j: usize = row.len();
    let n: usize = row.len();
    proof {
        lemma_level_bounded(kids, b);
        assert(rest =~= siblings(kids, fuel, row@, n as nat, depth, mask) + rest);
    }
    while j > 0
        invariant
            j <= n == row@.len(),
            tree_shaped(kids),
            b < kids.len(),
            rooted(kids, b),
            level(kids, b) < kids.len(),
            row@ == kids[b as int],
            fuel == (kids.len() - level(kids, b) - 1) as nat,
            stack.wf(),
            stack.same_room(old(stack)),
            all_rooted(kids, stack@),
            siblings(kids, fuel, row@, 0, depth, mask).len() + rest.len() <= stack.cap(),
            waiting(kids, stack@) == siblings(kids, fuel, row@, j as nat, depth, mask) + rest,
        decreases j,
    {
        let ghost before = stack@;
        let ghost later = siblings(kids, fuel, row@, j as nat, depth, mask);
        j = j - 1;
        let x: u32 = row[j];
        let item: (u32, u8, u32, bool) = (x, depth, mask, j + 1 == n);
        let ghost own = subtree(kids, fuel, x, depth, mask, j + 1 == n);
        proof {
            assert(row@.contains(x));
            assert(holds(kids, b as int, x));
            lemma_holds_parent(kids, b as int, x);
            lemma_child_level(kids, x);
            lemma_level_bounded(kids, x);
            assert(own.len() > 0);
            lemma_waiting_len(kids, before);
            lemma_siblings_shrink(kids, fuel, row@, j as nat, depth, mask);
            assert(siblings(kids, fuel, row@, j as nat, depth, mask) == own + later);
        }
        let _ = stack.push(item);
        proof {
            assert(stack@.drop_last() =~= before);
            assert(stack@.last() == item);
            assert(own + (later + rest) =~= own + later + rest);
            assert(all_rooted(kids, stack@)) by {
                assert forall|k: int| 0 <= k < stack@.len() implies (#[trigger] stack@[k]).0
                    < kids.len() && rooted(kids, stack@[k].0) by {
                    if k < before.len() {
                        assert(stack@[k] == before[k]);
                    }
                }
            }
        }
    }
}

/// From a later place on there are no more than from the first.
proof fn lemma_siblings_shrink(
    kids: Seq<Seq<u32>>,
    fuel: nat,
    row: Seq<u32>,
    k: nat,
    depth: u8,
    mask: u32,
)
    requires
        k <= row.len(),
    ensures
        siblings(kids, fuel, row, k, depth, mask).len() <= siblings(
            kids,
            fuel,
            row,
            0,
            depth,
            mask,
        ).len(),
    decreases k,
{
    if k > 0 {
        lemma_siblings_shrink(kids, fuel, row, (k - 1) as nat, depth, mask);
    }
}

/// Lists the tree of `root_idx` behind `out`, depth first. `stack` is room to
/// work in.
pub fn tree_walk(
    children: &FNest<'_, u32>,
    root_idx: u32,
    out: &mut FReserve<'_, '_, (Indent, u32)>,
    stack: &mut FVec<'_, (u32, u8, u32, bool)>,
)
    requires
        children.wf(),
        tree_shaped(children@),
        root_idx < children@.len(),
        parent(children@, root_idx) is None,
        old(out).wf(),
        old(out)@.len() + whole_tree(children@, root_idx).len() <= old(out).cap(),
        old(stack).wf(),
        old(stack).cap() >= children@.len(),
    ensures
        final(out).wf(),
        final(out)@ == old(out)@ + whole_tree(children@, root_idx),
        final(out).at() == old(out).at(),
        final(out).cap() == old(out).cap(),
        final(out).lender() == old(out).lender(),
        final(stack).wf(),
        final(stack).same_room(old(stack)),
{
    let ghost kids = children@;
    let ghost whole = whole_tree(kids, root_idx);
    let ghost before = out@;
    let ghost mut done: Seq<(Indent, u32)> = Seq::empty();
    stack.clear();
    let _ = stack.push((root_idx, 0, 0, true));
    proof {
        lemma_top_level(kids, root_idx);
        lemma_whole_tree_few(kids, root_idx);
        assert(stack@.drop_last() =~= Seq::empty());
        assert(waiting(kids, stack@.drop_last()) =~= Seq::empty());
        assert(stack@.last() == (root_idx, 0u8, 0u32, true));
        assert(waiting(kids, stack@) =~= whole);
        assert(done + waiting(kids, stack@) =~= whole);
        assert(out@ =~= before + done);
    }
    while stack.len() > 0
        invariant
            children.wf(),
            kids == children@,
            tree_shaped(kids),
            whole == whole_tree(kids, root_idx),
            whole.len() <= kids.len(),
            out.wf(),
            before == old(out)@,
            before.len() + whole.len() <= out.cap(),
            out@ == before + done,
            out.at() == old(out).at(),
            out.cap() == old(out).cap(),
            out.lender() == old(out).lender(),
            stack.wf(),
            stack.same_room(old(stack)),
            stack.cap() >= kids.len(),
            all_rooted(kids, stack@),
            done + waiting(kids, stack@) == whole,
        decreases whole.len() - done.len(),
    {
        let ghost was = stack@;
        if let Some((idx, depth, parent_mask, is_last)) = stack.pop() {
            let mask: u32 = if depth > 0 && depth <= 32 && is_last {
                parent_mask | (1u32 << ((depth - 1) as u32))
            } else {
                parent_mask
            };
            let ghost entry = (Indent { depth, mask }, idx);
            let ghost rest = waiting(kids, stack@);
            let ghost fuel = (kids.len() - level(kids, idx)) as nat;
            let ghost below = siblings(
                kids,
                (fuel - 1) as nat,
                kids[idx as int],
                0,
                deeper(depth),
                mask,
            );
            proof {
                assert(was.last() == was[was.len() - 1]);
                lemma_level_bounded(kids, idx);
                assert(waiting(kids, was) =~= seq![entry] + below + rest);
                assert(whole =~= done.push(entry) + (below + rest));
                assert(all_rooted(kids, stack@)) by {
                    assert forall|k: int| 0 <= k < stack@.len() implies (#[trigger] stack@[k]).0
                        < kids.len() && rooted(kids, stack@[k].0) by {
                        assert(stack@[k] == was[k]);
                    }
                }
            }
            let _ = out.push((Indent { depth, mask }, idx));
            let row: &[u32] = children.bucket(idx as usize);
            push_row(row, depth.saturating_add(1), mask, stack, Ghost(kids), Ghost(idx));
            proof {
                done = done.push(entry);
                assert(out@ =~= before + done);
            }
        }
    }
    assert(waiting(kids, stack@) =~= Seq::empty());
    assert(done =~= whole);
}

/// No two processes have the same number.
pub open spec fn distinct(ps: Seq<ProcInfo<'_>>) -> bool {
    forall|i: int, j: int|
        0 <= i < j < ps.len() ==> (#[trigger] ps[i]).pid != (#[trigger] ps[j]).pid
}

/// `ps[i]` is the process with the number `pid`.
pub open spec fn is_at(ps: Seq<ProcInfo<'_>>, i: int, pid: u32) -> bool {
    0 <= i < ps.len() && ps[i].pid == pid
}

/// The place of the process with the number `pid`.
pub open spec fn place_of(ps: Seq<ProcInfo<'_>>, pid: u32) -> Option<u32> {
    if exists|i: int| is_at(ps, i, pid) {
        Some((choose|i: int| is_at(ps, i, pid)) as u32)
    } else {
        None
    }
}

/// For each of the first `n` processes whose parent is among `ps`, the place of
/// the parent and its own.
pub open spec fn edges(ps: Seq<ProcInfo<'_>>, n: nat) -> Seq<(u32, u32)>
    decreases n,
{
    if n == 0 {
        Seq::empty()
    } else {
        match place_of(ps, ps[n - 1].ppid) {
            Some(p) => edges(ps, (n - 1) as nat).push((p, (n - 1) as u32)),
            None => edges(ps, (n - 1) as nat),
        }
    }
}

/// The places of the children of each process, in ascending order.
pub open spec fn children_of(ps: Seq<ProcInfo<'_>>) -> Seq<Seq<u32>> {
    Seq::new(ps.len(), |b: int| bucket_of(edges(ps, ps.len()), b))
}

/// All trees of processes, each root followed by what stands below it.
pub open spec fn layout(ps: Seq<ProcInfo<'_>>) -> Seq<(Indent, u32)> {
    trees(children_of(ps), ps.len())
}

/// There is one place.
pub proof fn lemma_place(ps: Seq<ProcInfo<'_>>, i: int)
    requires
        distinct(ps),
        ps.len() <= u32::MAX,
        0 <= i < ps.len(),
    ensures
        place_of(ps, ps[i].pid) == Some(i as u32),
{
    assert(is_at(ps, i, ps[i].pid));
    let j = choose|j: int| is_at(ps, j, ps[i].pid);
    assert(is_at(ps, j, ps[i].pid));
    if i < j {
        assert(ps[i].pid != ps[j].pid);
    } else if j < i {
        assert(ps[j].pid != ps[i].pid);
    }
}

/// A place is that of a process with the number.
pub proof fn lemma_place_is(ps: Seq<ProcInfo<'_>>, pid: u32)
    requires
        ps.len() <= u32::MAX,
        place_of(ps, pid) is Some,
    ensures
        is_at(ps, place_of(ps, pid)->0 as int, pid),
{
    let i = choose|i: int| is_at(ps, i, pid);
    assert(is_at(ps, i, pid));
}

/// A bucket holds those whose parent has its number, in ascending order.
proof fn lemma_bucket(ps: Seq<ProcInfo<'_>>, n: nat, b: int)
    requires
        n <= ps.len() <= u32::MAX,
    ensures
        forall|x: u32| #[trigger]
            bucket_of(edges(ps, n), b).contains(x) <==> x < n && place_of(ps, ps[x as int].ppid)
                == Some(b as u32) && 0 <= b <= u32::MAX,
        forall|i: int, j: int|
            0 <= i < j < bucket_of(edges(ps, n), b).len() ==> (#[trigger] bucket_of(
                edges(ps, n),
                b,
            )[i]) < (#[trigger] bucket_of(edges(ps, n), b)[j]),
    decreases n,
{
    if n > 0 {
        let m = (n - 1) as nat;
        lemma_bucket(ps, m, b);
        let old_row = bucket_of(edges(ps, m), b);
        let row = bucket_of(edges(ps, n), b);
        match place_of(ps, ps[n - 1].ppid) {
            None => {},
            Some(p) => {
                assert(edges(ps, n).drop_last() =~= edges(ps, m));
                if p == b {
                    assert(row == old_row.push(m as u32));
                    assert forall|x: u32| #[trigger] row.contains(x) <==> x < n && place_of(
                        ps,
                        ps[x as int].ppid,
                    ) == Some(b as u32) && 0 <= b <= u32::MAX by {
                        if x == m {
                            assert(row[row.len() - 1] == x);
                        } else {
                            if row.contains(x) {
                                let i = choose|i: int| 0 <= i < row.len() && row[i] == x;
                                assert(old_row[i] == x);
                                assert(old_row.contains(x));
                            }
                            if old_row.contains(x) {
                                let i = choose|i: int| 0 <= i < old_row.len() && old_row[i] == x;
                                assert(row[i] == x);
                            }
                        }
                    }
                    assert forall|i: int, j: int| 0 <= i < j < row.len() implies (#[trigger] row[i])
                        < (#[trigger] row[j]) by {
                        assert(row[i] == old_row[i]);
                        if j == old_row.len() {
                            assert(old_row.contains(old_row[i]));
                        } else {
                            assert(row[j] == old_row[j]);
                        }
                    }
                } else {
                    assert(row == old_row);
                }
            },
        }
    }
}

/// The children make a tree, in which the parent is the process with the
/// parent's number.
pub proof fn lemma_children(ps: Seq<ProcInfo<'_>>)
    requires
        ps.len() <= u32::MAX,
    ensures
        tree_shaped(children_of(ps)),
        forall|x: u32|
            x < ps.len() ==> #[trigger] parent(children_of(ps), x) == place_of(
                ps,
                ps[x as int].ppid,
            ),
        children_of(ps).len() == ps.len(),
{
    let kids = children_of(ps);
    assert forall|b: int, x: u32| #[trigger] holds(kids, b, x) <==> x < ps.len() && place_of(
        ps,
        ps[x as int].ppid,
    ) == Some(b as u32) && 0 <= b < ps.len() by {
        if 0 <= b < ps.len() {
            lemma_bucket(ps, ps.len(), b);
            assert(kids[b] == bucket_of(edges(ps, ps.len()), b));
        }
    }
    assert forall|b: int| 0 <= b < kids.len() implies (#[trigger] kids[b]).no_duplicates() by {
        lemma_bucket(ps, ps.len(), b);
        let row = bucket_of(edges(ps, ps.len()), b);
        assert forall|i: int, j: int| 0 <= i < row.len() && 0 <= j < row.len() && i != j implies
            row[i] != row[j] by {
            if i < j {
                assert(row[i] < row[j]);
            } else {
                assert(row[j] < row[i]);
            }
        }
    }
    assert forall|a: int, b: int, x: u32| #[trigger] holds(kids, a, x) && #[trigger] holds(
        kids,
        b,
        x,
    ) implies a == b by {}
    assert forall|x: u32| x < ps.len() implies #[trigger] parent(kids, x) == place_of(
        ps,
        ps[x as int].ppid,
    ) by {
        match place_of(ps, ps[x as int].ppid) {
            Some(p) => {
                lemma_place_is(ps, ps[x as int].ppid);
                assert(holds(kids, p as int, x));
                lemma_holds_parent(kids, p as int, x);
            },
            None => {
                if parent(kids, x) is Some {
                    lemma_parent_holds(kids, x);
                }
            },
        }
    }
}

/// Every edge leads to a process.
proof fn lemma_edges(ps: Seq<ProcInfo<'_>>, n: nat)
    requires
        n <= ps.len() <= u32::MAX,
    ensures
        in_buckets(edges(ps, n), ps.len()),
        edges(ps, n).len() <= n,
    decreases n,
{
    if n > 0 {
        lemma_edges(ps, (n - 1) as nat);
        if place_of(ps, ps[n - 1].ppid) is Some {
            lemma_place_is(ps, ps[n - 1].ppid);
        }
        assert forall|k: int| 0 <= k < edges(ps, n).len() implies (#[trigger] edges(ps, n)[k]).0
            < ps.len() by {
            if k < edges(ps, (n - 1) as nat).len() {
                assert(edges(ps, n)[k] == edges(ps, (n - 1) as nat)[k]);
            }
        }
    }
}

/// Of two values under one key, the first stays.
fn keep_first(a: &mut u32, b: &mut u32)
    ensures
        *final(a) == *old(a),
        *final(b) == *old(b),
{
}

/// The place of each process by its number.
pub fn build_pid_to_idx<'a>(frame: &mut Frame<'a>, procs: &[ProcInfo<'_>]) -> (r: FrozenMap<'a, u32>)
    requires
        procs@.len() <= u32::MAX,
        distinct(procs@),
        fits::<(u32, u32)>(old(frame).top(), procs@.len()),
    ensures
        forall|pid: u32| #[trigger] value_of(r@, pid) == place_of(procs@, pid),
        final(frame).top() == next_start::<(u32, u32)>(old(frame).top()) + bytes_of::<(u32, u32)>(
            procs@.len(),
        ),
{
    let n: usize = procs.len();
    let mut buf: FVec<'a, (u32, u32)> = frame.vec("pid_to_idx", n as u32);
    for i in 0..n
        invariant
            n == procs@.len() <= u32::MAX,
            buf.wf(),
            buf.cap() == n,
            buf@ == Seq::new(i as nat, |j: int| (procs@[j].pid, j as u32)),
    {
        let _ = buf.push((procs[i].pid, i as u32));
        assert(buf@ =~= Seq::new((i + 1) as nat, |j: int| (procs@[j].pid, j as u32)));
    }
    let ghost entries = buf@;
    let r: FrozenMap<'a, u32> = freeze_map_owned(buf, keep_first);
    proof {
        let (sorted, states) = choose|sorted: Seq<(u32, u32)>, states: Seq<Seq<(u32, u32)>>| #[trigger]
            fold_states(sorted, states) && ascending(sorted)
                && sorted.to_multiset() == entries.to_multiset() && states.last() == r@ && forall|
                k: int,
            | #[trigger]
                has_index(sorted, k) ==> appends(
                    states[k],
                    sorted[k],
                    states[k + 1],
                ) || exists|a: &mut u32, b: &mut u32|
                    #![trigger call_ensures(keep_first, (a, b), ())]
                    call_ensures(keep_first, (a, b), ()) && *a == states[k].last().1 && *b
                        == sorted[k].1 && merges(
                        states[k],
                        sorted[k],
                        *final(a),
                        states[k + 1],
                    );
        assert forall|k: int| #[trigger] has_index(sorted, k) implies kept_or_added(
            states[k],
            sorted[k],
            states[k + 1],
        ) by {
            if !appends(states[k], sorted[k], states[k + 1]) {
                let (a, b) = choose|a: &mut u32, b: &mut u32|
                    #![trigger call_ensures(keep_first, (a, b), ())]
                    call_ensures(keep_first, (a, b), ()) && *a == states[k].last().1 && *b
                        == sorted[k].1 && merges(
                        states[k],
                        sorted[k],
                        *final(a),
                        states[k + 1],
                    );
                assert(*final(a) == *a);
                assert(states[k + 1] =~= states[k]);
            }
        }
        lemma_kept(sorted, states, sorted.len());
        assert forall|pid: u32| #[trigger] value_of(r@, pid) == place_of(procs@, pid) by {
            lemma_index_lookup(procs@, entries, sorted, r@, pid);
        }
    }
    r
}

/// One step of a fold that keeps the first value under a key.
spec fn kept_or_added(before: Seq<(u32, u32)>, item: (u32, u32), after: Seq<(u32, u32)>) -> bool {
    after == before || after == before.push(item)
}

/// Such a fold holds only items.
proof fn lemma_kept(sorted: Seq<(u32, u32)>, states: Seq<Seq<(u32, u32)>>, n: nat)
    requires
        n <= sorted.len(),
        fold_states(sorted, states),
        forall|k: int| #[trigger]
            has_index(sorted, k) ==> kept_or_added(
                states[k],
                sorted[k],
                states[k + 1],
            ),
    ensures
        forall|i: int| 0 <= i < states[n as int].len() ==> sorted.contains(#[trigger] states[n as int][i]),
    decreases n,
{
    if n > 0 {
        lemma_kept(sorted, states, (n - 1) as nat);
        assert(has_index(sorted, n - 1));
        let before = states[n - 1];
        assert(states[n - 1 + 1] == states[n as int]);
        assert forall|i: int| 0 <= i < states[n as int].len() implies sorted.contains(
            #[trigger] states[n as int][i],
        ) by {
            if i < before.len() {
                assert(states[n as int][i] == before[i]);
            } else {
                assert(states[n as int][i] == sorted[n - 1]);
            }
        }
    }
}

/// The map finds the place.
proof fn lemma_index_lookup(
    ps: Seq<ProcInfo<'_>>,
    entries: Seq<(u32, u32)>,
    sorted: Seq<(u32, u32)>,
    map: Seq<(u32, u32)>,
    pid: u32,
)
    requires
        distinct(ps),
        ps.len() <= u32::MAX,
        entries == Seq::new(ps.len(), |j: int| (ps[j].pid, j as u32)),
        sorted.to_multiset() == entries.to_multiset(),
        forall|i: int| 0 <= i < map.len() ==> sorted.contains(#[trigger] map[i]),
        strictly_ascending(map),
        has_key(map, pid) == has_key(entries, pid),
    ensures
        value_of(map, pid) == place_of(ps, pid),
{
    if has_key(map, pid) {
        let i = choose|i: int|
            0 <= i < map.len() && (#[trigger] map[i]).key() == pid;
        let e = map[i];
        lemma_value_at(map, i);
        assert(sorted.contains(e));
        sorted.to_multiset_ensures();
        entries.to_multiset_ensures();
        assert(sorted.to_multiset().count(e) > 0);
        assert(entries.contains(e));
        let j = choose|j: int| 0 <= j < entries.len() && entries[j] == e;
        lemma_place(ps, j);
    } else if place_of(ps, pid) is Some {
        lemma_place_is(ps, pid);
        let j = place_of(ps, pid)->0;
        assert(entries[j as int].key() == pid);
    }
}

/// A copy of `v`.
fn copy_pairs(v: &Vec<(u32, u32)>) -> (r: Vec<(u32, u32)>)
    ensures
        r@ == v@,
{
    let mut r: Vec<(u32, u32)> = Vec::new();
    for i in 0..v.len()
        invariant
            r@ == v@.take(i as int),
    {
        r.push(v[i]);
        assert(r@ =~= v@.take(i + 1));
    }
    assert(r@ =~= v@);
    r
}

/// As many stand in the first `n` buckets as there are items for them.
proof fn lemma_joined_len(items: Seq<(u32, u32)>, buckets: Seq<Seq<u32>>, n: nat)
    requires
        n <= buckets.len(),
        forall|b: int| 0 <= b < buckets.len() ==> #[trigger] buckets[b] == bucket_of(items, b),
    ensures
        joined(buckets.take(n as int)).len() == start_of(items, n),
    decreases n,
{
    if n > 0 {
        lemma_joined_len(items, buckets, (n - 1) as nat);
        assert(buckets.take(n as int).drop_last() =~= buckets.take(n - 1));
        assert(buckets.take(n as int).last() == buckets[n - 1]);
    }
}

/// The children of each process.
pub fn build_children<'a>(
    frame: &mut Frame<'a>,
    procs: &[ProcInfo<'_>],
    pid_to_idx: &U32Map<'_, u32>,
) -> (r: FNest<'a, u32>)
    requires
        procs@.len() <= u32::MAX,
        forall|pid: u32| #[trigger] value_of(pid_to_idx@, pid) == place_of(procs@, pid),
        nest_fits::<u32>(old(frame).top(), procs@.len(), edges(procs@, procs@.len()).len()),
    ensures
        r.wf(),
        r@ == children_of(procs@),
        final(frame).top() == nest_end::<u32>(
            old(frame).top(),
            procs@.len(),
            edges(procs@, procs@.len()).len(),
        ),
{
    let n: usize = procs.len();
    let mut links: Vec<(u32, u32)> = Vec::new();
    for i in 0..n
        invariant
            n == procs@.len() <= u32::MAX,
            forall|pid: u32| #[trigger] value_of(pid_to_idx@, pid) == place_of(procs@, pid),
            links@ == edges(procs@, i as nat),
    {
        match pid_to_idx.get(&procs[i].ppid) {
            Some(pa) => {
                links.push((*pa, i as u32));
            },
            None => {},
        }
    }
    let ghost items = edges(procs@, n as nat);
    proof {
        lemma_edges(procs@, n as nat);
    }
    let build = || -> (it: std::vec::IntoIter<(u32, u32)>)
        ensures
            vstd::std_specs::iter::IteratorSpec::remaining(&it) == links@,
            vstd::std_specs::iter::IteratorSpec::obeys_prophetic_iter_laws(&it),
            vstd::std_specs::iter::IteratorSpec::decrease(&it) is Some,
        {
            broadcast use vstd::std_specs::vec::axiom_spec_into_iter;

            copy_pairs(&links).into_iter()
        };
    let r: FNest<'a, u32> = frame.nest("children", n as u32, build);
    proof {
        assert(r@ =~= children_of(procs@));
        law_flat_joins_buckets(r);
        lemma_joined_len(items, r@, n as nat);
        assert(r@.take(n as int) =~= r@);
        lemma_start_of_total(items, n as nat);
    }
    r
}

/// Whether there is room to lay out `n` processes of which `e` have their
/// parent among them: the index, the children, a stack and the result.
pub open spec fn layout_fits(top: nat, n: nat, e: nat) -> bool {
    let children_at = next_start::<(u32, u32)>(top) + bytes_of::<(u32, u32)>(n);
    let stack_at = nest_end::<u32>(children_at, n, e);
    let result_at = next_start::<(u32, u8, u32, bool)>(stack_at) + bytes_of::<(u32, u8, u32, bool)>(n);
    &&& fits::<(u32, u32)>(top, n)
    &&& nest_fits::<u32>(children_at, n, e)
    &&& fits::<(u32, u8, u32, bool)>(stack_at, n)
    &&& fits::<(Indent, u32)>(result_at, n)
}

/// Lists the trees, and leaves what it worked with in the frame.
fn list_trees<'a>(frame: &mut Frame<'a>, procs: &[ProcInfo<'_>]) -> (r: FSpan<'a, (Indent, u32)>)
    requires
        procs@.len() <= u32::MAX,
        distinct(procs@),
        layout_fits(old(frame).top(), procs@.len(), edges(procs@, procs@.len()).len()),
    ensures
        r.wf(),
        r@ == layout(procs@),
        r.at() >= next_start::<(Indent, u32)>(old(frame).top()),
{
    let n: usize = procs.len();
    let ghost top = frame.top();
    let ghost kids = children_of(procs@);
    let index: FrozenMap<'a, u32> = build_pid_to_idx(frame, procs);
    let pid_to_idx: U32Map<'_, u32> = index.as_map();
    let ghost at1 = frame.top();
    let children: FNest<'a, u32> = build_children(frame, procs, &pid_to_idx);
    let ghost at2 = frame.top();
    let mut stack: FVec<'a, (u32, u8, u32, bool)> = frame.vec("tree/stack", n as u32);
    let ghost at3 = frame.top();
    let mut result: FReserve<'_, 'a, (Indent, u32)> = frame.reserve("tree", n as u32);
    vstd::layout::layout_for_type_is_valid::<u32>();
    vstd::layout::layout_for_type_is_valid::<(u32, u32)>();
    vstd::layout::layout_for_type_is_valid::<(u32, u8, u32, bool)>();
    vstd::layout::layout_for_type_is_valid::<(Indent, u32)>();
    proof {
        lemma_start_grows::<(u32, u32)>(top);
        lemma_start_grows::<u32>(at1);
        lemma_start_grows::<u32>(next_start::<u32>(at1) + bytes_of::<u32>((n + 1) as nat));
        lemma_start_grows::<(u32, u8, u32, bool)>(at2);
        lemma_children(procs@);
        lemma_align_up_mono(
            top,
            at3,
            vstd::layout::align_of::<(Indent, u32)>(),
        );
        assert(result@ =~= trees(kids, 0));
    }
    for i in 0..n
        invariant
            n == procs@.len() <= u32::MAX,
            kids == children_of(procs@),
            kids == children@,
            kids.len() == n,
            children.wf(),
            tree_shaped(kids),
            forall|x: u32|
                x < procs@.len() ==> #[trigger] parent(kids, x) == place_of(
                    procs@,
                    procs@[x as int].ppid,
                ),
            forall|pid: u32| #[trigger] value_of(pid_to_idx@, pid) == place_of(procs@, pid),
            stack.wf(),
            stack.cap() == n,
            result.wf(),
            result.cap() == n,
            result.at() == next_start::<(Indent, u32)>(at3),
            result@ == trees(kids, i as nat),
    {
        proof {
            law_trees_list_once(kids, (i + 1) as nat);
            assert(parent(kids, i as u32) == place_of(procs@, procs@[i as int].ppid));
        }
        if pid_to_idx.get(&procs[i].ppid).is_none() {
            tree_walk(&children, i as u32, &mut result, &mut stack);
        }
    }
    result.freeze()
}

/// A run does not start before the end of what is taken.
proof fn lemma_start_grows<T>(top: nat)
    requires
        vstd::layout::align_of::<T>() > 0,
    ensures
        next_start::<T>(top) >= top,
{
    lemma_align_up(top, vstd::layout::align_of::<T>());
}

/// Lays the processes out as trees. Only the result stays in the frame.
pub fn tree_layout<'a>(frame: &mut Frame<'a>, procs: &[ProcInfo<'_>]) -> (r: FSpan<'a, (Indent, u32)>)
    requires
        procs@.len() <= u32::MAX,
        distinct(procs@),
        layout_fits(old(frame).top(), procs@.len(), edges(procs@, procs@.len()).len()),
    ensures
        r.wf(),
        r@ == layout(procs@),
        r.at() == next_start::<(Indent, u32)>(old(frame).top()),
        final(frame).top() == r.end(),
{
    let build = |inner: &mut Frame<'a>| -> (out: FSpan<'a, (Indent, u32)>)
        requires
            layout_fits(old(inner).top(), procs@.len(), edges(procs@, procs@.len()).len()),
        ensures
            out.wf(),
            out@ == layout(procs@),
            out.at() >= next_start::<(Indent, u32)>(old(inner).top()),
        { list_trees(inner, procs) };
    frame.compact("tree_layout", build)
}

/// How many processes have their parent among `procs`; none if there is no room
/// to find out.
pub(crate) fn count_edges(frame: &mut Frame<'_>, procs: &[ProcInfo<'_>]) -> (r: Option<u32>)
    requires
        procs@.len() <= u32::MAX,
        distinct(procs@),
    ensures
        *final(frame) == *old(frame),
        match r {
            Some(e) => e == edges(procs@, procs@.len()).len() && fits::<(u32, u32)>(
                old(frame).top(),
                procs@.len(),
            ),
            None => !fits::<(u32, u32)>(old(frame).top(), procs@.len()),
        },
{
    let n: usize = procs.len();
    let top: usize = frame.offset();
    if end_of_run::<(u32, u32)>(top, n).is_none() {
        return None;
    }
    let mut sub: Frame<'_> = frame.sub();
    let index: FrozenMap<'_, u32> = build_pid_to_idx(&mut sub, procs);
    let pid_to_idx: U32Map<'_, u32> = index.as_map();
    let mut e: u32 = 0;
    for i in 0..n
        invariant
            n == procs@.len() <= u32::MAX,
            forall|pid: u32| #[trigger] value_of(pid_to_idx@, pid) == place_of(procs@, pid),
            e == edges(procs@, i as nat).len(),
            e <= i,
    {
        if pid_to_idx.get(&procs[i].ppid).is_some() {
            e = e + 1;
        }
    }
    Some(e)
}

/// Whether there is room to lay `procs` out.
pub fn layout_has_room(frame: &mut Frame<'_>, procs: &[ProcInfo<'_>]) -> (r: bool)
    requires
        procs@.len() <= u32::MAX,
        distinct(procs@),
    ensures
        r == layout_fits(old(frame).top(), procs@.len(), edges(procs@, procs@.len()).len()),
        *final(frame) == *old(frame),
{
    let n: usize = procs.len();
    match count_edges(frame, procs) {
        None => false,
        Some(e) => match end_of_run::<(u32, u32)>(frame.offset(), n) {
            None => false,
            Some(children_at) => match end_of_nest(children_at, n as u32, e) {
                None => false,
                Some(stack_at) => match end_of_run::<(u32, u8, u32, bool)>(
                    stack_at,
                    n,
                ) {
                    None => false,
                    Some(result_at) => end_of_run::<(Indent, u32)>(
                        result_at,
                        n,
                    ).is_some(),
                },
            },
        },
    }
}

/// Whether no two processes have the same number; they are to be in ascending
/// order.
pub fn pids_ascend(procs: &[ProcInfo<'_>]) -> (r: bool)
    ensures
        r == strictly_ascending(procs@),
        r ==> distinct(procs@),
{
    let n: usize = procs.len();
    let mut i: usize = 1;
    while i < n
        invariant
            n == procs@.len(),
            1 <= i,
            n > 0 ==> i <= n,
            forall|a: int, b: int|
                0 <= a < b < i && b < n ==> (#[trigger] procs@[a]).pid < (#[trigger] procs@[b]).pid,
        decreases n - i,
    {
        if procs[i - 1].pid >= procs[i].pid {
            assert(!(procs@[i - 1].key() < procs@[i as int].key()));
            return false;
        }
        assert forall|a: int, b: int| 0 <= a < b < i + 1 && b < n implies (
        #[trigger] procs@[a]).pid < (#[trigger] procs@[b]).pid by {
            if b == i && a < i - 1 {
                assert(procs@[a].pid < procs@[i - 1].pid);
            }
        }
        i = i + 1;
    }
    true
}

/// The children of a process are listed in the order of the processes, and so
/// by ascending number if the processes are.
pub proof fn law_children_in_order(ps: Seq<ProcInfo<'_>>, b: int, i: int, j: int)
    requires
        ps.len() <= u32::MAX,
        0 <= b < ps.len(),
        0 <= i < j < children_of(ps)[b].len(),
    ensures
        children_of(ps)[b][i] < children_of(ps)[b][j] < ps.len(),
        strictly_ascending(ps) ==> ps[children_of(ps)[b][i] as int].pid < ps[children_of(
            ps,
        )[b][j] as int].pid,
{
    lemma_bucket(ps, ps.len(), b);
    let row = bucket_of(edges(ps, ps.len()), b);
    assert(children_of(ps)[b] == row);
    assert(row[i] < row[j]);
    assert(row.contains(row[j]));
    if strictly_ascending(ps) {
        assert(ps[row[i] as int].key() < ps[row[j] as int].key());
    }
}

/// `line` leads down to its last: it starts with one whose parent is not among
/// the processes, and each of the others is a child of the one before it.
pub open spec fn leads_down(ps: Seq<ProcInfo<'_>>, line: Seq<u32>) -> bool {
    &&& line.len() > 0
    &&& forall|i: int| 0 <= i < line.len() ==> (#[trigger] line[i]) < ps.len()
    &&& forall|i: int|
        0 < i < line.len() ==> ps[(#[trigger] line[i]) as int].ppid == ps[line[i - 1] as int].pid
    &&& forall|y: int| 0 <= y < ps.len() ==> (#[trigger] ps[y]).pid != ps[line[0] as int].ppid
}

/// A line that leads down makes parents and a level.
proof fn lemma_line(ps: Seq<ProcInfo<'_>>, line: Seq<u32>, m: int)
    requires
        ps.len() <= u32::MAX,
        distinct(ps),
        leads_down(ps, line),
        0 <= m < line.len(),
    ensures
        m == 0 ==> parent(children_of(ps), line[0]) is None,
        m > 0 ==> parent(children_of(ps), line[m]) == Some(line[m - 1]),
        rooted(children_of(ps), line[m]),
        level(children_of(ps), line[m]) == m,
        forall|d: nat| d <= m ==> #[trigger] up(children_of(ps), line[m], d) == Some(line[m - d]),
    decreases m,
{
    let kids = children_of(ps);
    lemma_children(ps);
    assert(line[m] < ps.len());
    let x = line[m];
    if m == 0 {
        if place_of(ps, ps[x as int].ppid) is Some {
            lemma_place_is(ps, ps[x as int].ppid);
        }
        lemma_top_level(kids, x);
    } else {
        lemma_line(ps, line, m - 1);
        assert(line[m - 1] < ps.len());
        lemma_place(ps, line[m - 1] as int);
        lemma_child_level(kids, x);
        assert forall|d: nat| d <= m implies #[trigger] up(kids, x, d) == Some(line[m - d]) by {
            if d > 0 {
                assert(up(kids, line[m - 1], (d - 1) as nat) == Some(line[m - 1 - (d - 1)]));
            }
        }
    }
}

/// An entry stands as deep as a line leads down to it, and its mask says for
/// every level on that line, as far as a mask can, whether the line ends there:
/// bit `l - 1` is set exactly if no child of the same parent comes behind the
/// one at level `l`.
pub proof fn law_mask_marks_every_level(ps: Seq<ProcInfo<'_>>, k: int, line: Seq<u32>)
    requires
        ps.len() <= u32::MAX,
        forall|i: int, j: int|
            0 <= i < j < ps.len() ==> (#[trigger] ps[i]).pid != (#[trigger] ps[j]).pid,
        0 <= k < layout(ps).len(),
        leads_down(ps, line),
        line.last() == layout(ps)[k].1,
    ensures
        layout(ps)[k].0.depth == (if line.len() <= 256 {
            line.len() - 1
        } else {
            255
        }),
        forall|l: int|
            0 < l < line.len() && l <= 32 ==> ((layout(ps)[k].0.mask >> ((l - 1) as u32)) & 1 == 1)
                == (forall|y: int|
                (#[trigger] line[l]) < y < ps.len() ==> (#[trigger] ps[y]).ppid != ps[line[l
                    - 1] as int].pid),
{
    let kids = children_of(ps);
    let e = layout(ps)[k];
    let top = line.len() - 1;
    lemma_children(ps);
    lemma_line(ps, line, top);
    law_depth_counts_ancestors(kids, ps.len(), k);
    lemma_trees_lines(kids, ps.len(), k);
    assert forall|l: int| 0 < l < line.len() && l <= 32 implies ((e.0.mask >> ((l - 1) as u32)) & 1
        == 1) == (forall|y: int|
        (#[trigger] line[l]) < y < ps.len() ==> (#[trigger] ps[y]).ppid != ps[line[l - 1] as int].pid)
        by {
        let i = (l - 1) as nat;
        let x = line[l];
        let p = line[l - 1];
        lemma_line(ps, line, l);
        assert(line[l - 1] < ps.len());
        lemma_place(ps, p as int);
        assert(last_at(e.0.mask, i) == is_last_child(
            kids,
            up(kids, e.1, (level(kids, e.1) - 1 - i) as nat)->0,
        ));
        assert(up(kids, line[top], (top - l) as nat) == Some(line[top - (top - l)]));
        assert(last_at(e.0.mask, i) == is_last_child(kids, x));
        lemma_bucket(ps, ps.len(), p as int);
        let row = bucket_of(edges(ps, ps.len()), p as int);
        assert(kids[p as int] == row);
        assert(row.contains(x));
        let at = choose|at: int| 0 <= at < row.len() && row[at] == x;
        if row.last() == x {
            assert forall|y: int| x < y < ps.len() implies (#[trigger] ps[y]).ppid
                != ps[p as int].pid by {
                if ps[y].ppid == ps[p as int].pid {
                    assert(row.contains(y as u32));
                    let b = choose|b: int| 0 <= b < row.len() && row[b] == y as u32;
                    if b < row.len() - 1 {
                        assert(row[b] < row[row.len() - 1]);
                    }
                }
            }
        } else {
            let z = row.last();
            assert(row[at] < row[row.len() - 1]);
            assert(row.contains(z));
            lemma_place_is(ps, ps[z as int].ppid);
            assert(ps[z as int].ppid == ps[p as int].pid);
        }
    }
}

/// Whoever a line leads down to is listed.
pub proof fn law_every_line_is_listed(ps: Seq<ProcInfo<'_>>, line: Seq<u32>)
    requires
        ps.len() <= u32::MAX,
        forall|i: int, j: int|
            0 <= i < j < ps.len() ==> (#[trigger] ps[i]).pid != (#[trigger] ps[j]).pid,
        leads_down(ps, line),
    ensures
        exists|k: int| 0 <= k < layout(ps).len() && (#[trigger] layout(ps)[k]).1 == line.last(),
{
    let kids = children_of(ps);
    let x = line[line.len() - 1];
    assert(tree_shaped(kids) && kids.len() == ps.len()) by {
        lemma_children(ps);
    }
    assert(rooted(kids, x)) by {
        lemma_line(ps, line, line.len() - 1);
    }
    lemma_listed(kids, x);
    let all = trees(kids, kids.len());
    let k = choose|k: int| 0 <= k < all.len() && (#[trigger] all[k]).1 == x;
    assert(layout(ps)[k].1 == line.last());
}

/// Whoever stands in a tree is listed.
proof fn lemma_listed(kids: Seq<Seq<u32>>, x: u32)
    requires
        tree_shaped(kids),
        x < kids.len(),
        rooted(kids, x),
    ensures
        exists|k: int|
            0 <= k < trees(kids, kids.len()).len() && (#[trigger] trees(kids, kids.len())[k]).1 == x,
{
    law_trees_list_all(kids, x);
}

/// Each entry stands in the list at most once, and a line leads down to it.
pub proof fn law_entries_have_lines(ps: Seq<ProcInfo<'_>>, k: int) -> (line: Seq<u32>)
    requires
        ps.len() <= u32::MAX,
        forall|i: int, j: int|
            0 <= i < j < ps.len() ==> (#[trigger] ps[i]).pid != (#[trigger] ps[j]).pid,
        0 <= k < layout(ps).len(),
    ensures
        leads_down(ps, line),
        line.last() == layout(ps)[k].1,
        layout(ps).len() <= ps.len(),
        forall|l: int|
            0 <= l < layout(ps).len() && l != k ==> (#[trigger] layout(ps)[l]).1 != layout(ps)[k].1,
{
    let kids = children_of(ps);
    lemma_children(ps);
    law_trees_list_once(kids, ps.len());
    let x = layout(ps)[k].1;
    law_depth_counts_ancestors(kids, ps.len(), k);
    assert forall|l: int| 0 <= l < layout(ps).len() && l != k implies (#[trigger] layout(ps)[l]).1
        != layout(ps)[k].1 by {
        if l < k {
            assert(trees(kids, ps.len())[l].1 != trees(kids, ps.len())[k].1);
        } else {
            assert(trees(kids, ps.len())[k].1 != trees(kids, ps.len())[l].1);
        }
    }
    lemma_line_up(ps, x)
}

/// The line that leads down to `x`.
proof fn lemma_line_up(ps: Seq<ProcInfo<'_>>, x: u32) -> (line: Seq<u32>)
    requires
        ps.len() <= u32::MAX,
        distinct(ps),
        x < ps.len(),
        rooted(children_of(ps), x),
    ensures
        leads_down(ps, line),
        line.last() == x,
    decreases level(children_of(ps), x),
{
    let kids = children_of(ps);
    lemma_children(ps);
    match parent(kids, x) {
        None => {
            assert forall|y: int| 0 <= y < ps.len() implies (#[trigger] ps[y]).pid
                != ps[x as int].ppid by {
                if ps[y].pid == ps[x as int].ppid {
                    assert(is_at(ps, y, ps[x as int].ppid));
                }
            }
            seq![x]
        },
        Some(p) => {
            lemma_child_level(kids, x);
            lemma_parent_holds(kids, x);
            lemma_place_is(ps, ps[x as int].ppid);
            let line = lemma_line_up(ps, p);
            let longer = line.push(x);
            assert forall|i: int| 0 < i < longer.len() implies ps[(#[trigger] longer[i]) as int].ppid
                == ps[longer[i - 1] as int].pid by {
                if i < line.len() {
                    assert(longer[i] == line[i]);
                }
            }
            assert(longer[0] == line[0]);
            longer
        },
    }
}

/// The list is in depth-first order: right above each entry, but for entries at
/// least as deep as it, stands its parent.
pub proof fn law_parent_stands_above(ps: Seq<ProcInfo<'_>>, k: int)
    requires
        ps.len() <= u32::MAX,
        forall|i: int, j: int|
            0 <= i < j < ps.len() ==> (#[trigger] ps[i]).pid != (#[trigger] ps[j]).pid,
        0 <= k < layout(ps).len(),
    ensures
        layout(ps)[k].0.depth == 0 <==> forall|y: int|
            0 <= y < ps.len() ==> (#[trigger] ps[y]).pid != ps[layout(ps)[k].1 as int].ppid,
        layout(ps)[k].0.depth > 0 ==> exists|j: int|
            #![trigger layout(ps)[j]]
            0 <= j < k && ps[layout(ps)[j].1 as int].pid == ps[layout(ps)[k].1 as int].ppid && forall|
                m: int,
            | j < m < k ==> (#[trigger] layout(ps)[m]).0.depth >= layout(ps)[k].0.depth,
{
    let kids = children_of(ps);
    let x = layout(ps)[k].1;
    lemma_children(ps);
    law_trees_list_once(kids, ps.len());
    law_depth_counts_ancestors(kids, ps.len(), k);
    match parent(kids, x) {
        None => {
            lemma_top_level(kids, x);
            assert forall|y: int| 0 <= y < ps.len() implies (#[trigger] ps[y]).pid
                != ps[x as int].ppid by {
                if ps[y].pid == ps[x as int].ppid {
                    assert(is_at(ps, y, ps[x as int].ppid));
                }
            }
        },
        Some(p) => {
            lemma_child_level(kids, x);
            lemma_place_is(ps, ps[x as int].ppid);
            assert(ps[p as int].pid == ps[x as int].ppid);
            let j = lemma_trees_parent_before(kids, ps.len(), k);
            assert(layout(ps)[j].1 == p);
        },
    }
}

/// Children of one parent, and those at the top, are listed in the order in
/// which they come.
pub proof fn law_siblings_keep_their_order(ps: Seq<ProcInfo<'_>>, k: int, l: int)
    requires
        ps.len() <= u32::MAX,
        forall|i: int, j: int|
            0 <= i < j < ps.len() ==> (#[trigger] ps[i]).pid != (#[trigger] ps[j]).pid,
        0 <= k < l < layout(ps).len(),
        ps[layout(ps)[k].1 as int].ppid == ps[layout(ps)[l].1 as int].ppid || layout(ps)[k].0.depth
            == 0 && layout(ps)[l].0.depth == 0,
    ensures
        layout(ps)[k].1 < layout(ps)[l].1,
{
    let kids = children_of(ps);
    lemma_children(ps);
    law_trees_list_once(kids, ps.len());
    law_parent_stands_above(ps, k);
    law_parent_stands_above(ps, l);
    let x = layout(ps)[k].1;
    let y = layout(ps)[l].1;
    assert(parent(kids, x) == parent(kids, y)) by {
        if layout(ps)[k].0.depth == 0 && layout(ps)[l].0.depth == 0 {
            if place_of(ps, ps[x as int].ppid) is Some {
                lemma_place_is(ps, ps[x as int].ppid);
            }
            if place_of(ps, ps[y as int].ppid) is Some {
                lemma_place_is(ps, ps[y as int].ppid);
            }
        }
    }
    assert(rows_ascend(kids)) by {
        assert forall|b: int, i: int, j: int|
            0 <= b < kids.len() && 0 <= i < j < kids[b].len() implies (#[trigger] kids[b][i]) < (
        #[trigger] kids[b][j]) by {
            lemma_bucket(ps, ps.len(), b);
            let row = bucket_of(edges(ps, ps.len()), b);
            assert(kids[b] == row);
            assert(row[i] < row[j]);
        }
    }
    lemma_trees_order(kids, ps.len(), k, l);
}

/// What is drawn in front of an entry with this depth and mask.
pub open spec fn indent_text(depth: u8, mask: u32) -> Seq<u8> {
    (Indent { depth, mask }).text()
}

/// What is drawn in front of an entry: for each level but the last two columns
/// that are blank if the line has ended there, and else hold a line; then the
/// branch, with a corner if it is the last.
pub proof fn law_indent_draws_the_mask(depth: u8, mask: u32)
    requires
        0 < depth <= 32,
    ensures
        depth == 1 ==> indent_text(depth, mask) == (if mask & 1 == 1 {
            utf8_of("└─")
        } else {
            utf8_of("├─")
        }),
        depth > 1 ==> indent_text(depth, mask) == (if mask & 1 == 1 {
            utf8_of("  ")
        } else {
            utf8_of("│ ")
        }) + indent_text((depth - 1) as u8, mask >> 1),
        forall|d: u8|
            d > 32 ==> #[trigger] indent_text(d, mask) == indent_text(32, mask),
        indent_text(0, mask).len() == 0,
{
    assert(mask >> 0u32 == mask) by (bit_vector);
    assert(last_at(mask, 0) == (mask & 1 == 1));
    if depth > 1 {
        lemma_lines_shift(mask, (depth - 1) as nat);
        lemma_bit_shift(mask, (depth - 2) as nat);
        let head = if mask & 1 == 1 {
            utf8_of("  ")
        } else {
            utf8_of("│ ")
        };
        assert((Indent { depth, mask }).text() =~= head + (Indent {
            depth: (depth - 1) as u8,
            mask: mask >> 1,
        }).text());
    } else {
        assert((Indent { depth, mask }).text() =~= (if mask & 1 == 1 {
            utf8_of("└─")
        } else {
            utf8_of("├─")
        }));
    }
}

proof fn lemma_bit_shift(mask: u32, i: nat)
    requires
        i < 31,
    ensures
        last_at(mask, i + 1) == last_at(mask >> 1, i),
{
    let w = i as u32;
    let w1 = (i + 1) as u32;
    assert(w < 31 && w1 == w + 1 ==> mask >> w1 == (mask >> 1) >> w) by (bit_vector);
}

proof fn lemma_lines_shift(mask: u32, n: nat)
    requires
        0 < n < 32,
    ensures
        passing_lines(mask, n) == (if mask & 1 == 1 {
            utf8_of("  ")
        } else {
            utf8_of("│ ")
        }) + passing_lines(mask >> 1, (n - 1) as nat),
    decreases n,
{
    assert(mask >> 0u32 == mask) by (bit_vector);
    let head = if mask & 1 == 1 {
        utf8_of("  ")
    } else {
        utf8_of("│ ")
    };
    if n == 1 {
        assert(passing_lines(mask, 0) =~= Seq::empty());
        assert(passing_lines(mask, 1) =~= head + passing_lines(mask >> 1, 0));
    } else {
        lemma_lines_shift(mask, (n - 1) as nat);
        lemma_bit_shift(mask, (n - 2) as nat);
        assert(passing_lines(mask, n) =~= head + passing_lines(mask >> 1, (n - 1) as nat));
    }
}

} // verus!
