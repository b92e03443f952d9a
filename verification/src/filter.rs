//! Which processes are shown, and below whom.

use crate::arena::{
    end_of_nest, end_of_run, fits, has_index, kept, nest_end, nest_fits, next_start, FVec, Frame,
};
use crate::bytes::{starts, starts_with, utf8_of};
use crate::forest::{holds, lemma_few_below, lemma_holds_parent, lemma_parent_holds, parent, tree_shaped};
use crate::gpu::GpuUsage;
use crate::layout::bytes_of;
use crate::map::{value_of, FrozenMap, U32Map};
use crate::nest::FNest;
use crate::procinfo::{
    shown_packed, with_visible, Packed, ProcInfo, CHILD_CPU_KEEP_THRESH, CHILD_CPU_THRESH,
};
use crate::tree::{
    build_children, build_pid_to_idx, children_of, count_edges, distinct, edges, is_at, lemma_children,
    lemma_place, lemma_place_is, place_of,
};
use vstd::prelude::*;
use vstd::string::StringSliceAdditionalSpecFns;

verus! {

/// `kid` is the name of a helper of `root`.
pub open spec fn helper_name(kid: Seq<u8>, root: Seq<u8>) -> bool {
    starts(kid, root + utf8_of(" Helper"))
}

/// Whether `kid` is the name of a helper of `root`.
pub fn is_helper_of(kid: &[u8], root: &[u8]) -> (r: bool)
    ensures
        r == helper_name(kid@, root@),
{
    let mut name: Vec<u8> = Vec::new();
    name.extend_from_slice(root);
    name.extend_from_slice(" Helper".as_bytes());
    assert(name@ =~= root@ + utf8_of(" Helper"));
    starts_with(kid, name.as_slice())
}

/// Nobody is a helper of itself.
pub proof fn law_no_own_helper(name: Seq<u8>)
    ensures
        !helper_name(name, name),
{
    broadcast use vstd::string::is_ascii_spec_bytes;

    reveal_strlit(" Helper");
    assert(vstd::string::is_ascii(" Helper"));
    assert(utf8_of(" Helper").len() == 7);
}

/// How many steps up an application is looked for.
pub const MAX_HOPS: u32 = 64;

/// The first process from the one with number `pid` up that `name` is a helper
/// of, within `hops` steps.
pub open spec fn app_above(ps: Seq<ProcInfo<'_>>, name: Seq<u8>, pid: u32, hops: nat) -> Option<u32>
    decreases hops,
{
    if hops == 0 {
        None
    } else {
        match place_of(ps, pid) {
            None => None,
            Some(p) => if helper_name(name, ps[p as int].display@) {
                Some(p)
            } else {
                app_above(ps, name, ps[p as int].ppid, (hops - 1) as nat)
            },
        }
    }
}

/// The application that process `i` is a helper of.
pub open spec fn app_of(ps: Seq<ProcInfo<'_>>, i: int) -> Option<u32> {
    app_above(ps, ps[i].display@, ps[i].ppid, MAX_HOPS as nat)
}

/// The application that process `idx` is a helper of.
pub fn coalesce_root(procs: &[ProcInfo<'_>], pid_to_idx: &U32Map<'_, u32>, idx: usize) -> (r: Option<
    usize,
>)
    requires
        idx < procs@.len() <= u32::MAX,
        forall|pid: u32| #[trigger] value_of(pid_to_idx@, pid) == place_of(procs@, pid),
    ensures
        match r {
            Some(p) => app_of(procs@, idx as int) == Some(p as u32) && p < procs@.len(),
            None => app_of(procs@, idx as int) is None,
        },
{
    let name: &[u8] = procs[idx].display.as_slice();
    let mut pid: u32 = procs[idx].ppid;
    let mut hops: u32 = MAX_HOPS;
    while hops > 0
        invariant
            idx < procs@.len() <= u32::MAX,
            name@ == procs@[idx as int].display@,
            hops <= MAX_HOPS,
            forall|p: u32| #[trigger] value_of(pid_to_idx@, p) == place_of(procs@, p),
            app_of(procs@, idx as int) == app_above(procs@, name@, pid, hops as nat),
        decreases hops,
    {
        match pid_to_idx.get(&pid) {
            None => {
                assert(value_of(pid_to_idx@, pid) == place_of(procs@, pid));
                return None;
            },
            Some(p) => {
                proof {
                    assert(value_of(pid_to_idx@, pid) == place_of(procs@, pid));
                    lemma_place_is(procs@, pid);
                }
                let pa: usize = *p as usize;
                if is_helper_of(name, procs[pa].display.as_slice()) {
                    return Some(pa);
                }
                pid = procs[pa].ppid;
            },
        }
        hops = hops - 1;
    }
    None
}

/// `a + b`, or the largest number.
pub open spec fn sat32(a: u32, b: u32) -> u32 {
    if a + b <= u32::MAX {
        (a + b) as u32
    } else {
        u32::MAX
    }
}

/// `a + b`, or the largest number.
pub open spec fn sat64(a: u64, b: u64) -> u64 {
    if a + b <= u64::MAX {
        (a + b) as u64
    } else {
        u64::MAX
    }
}

/// Two graphics shares in one.
pub open spec fn gpu_sum(a: Option<GpuUsage>, b: Option<GpuUsage>) -> Option<GpuUsage> {
    match b {
        None => a,
        Some(g) => match a {
            None => Some(g),
            Some(h) => Some(
                GpuUsage {
                    sm_pct: h.sm_pct.wrapping_add(g.sm_pct),
                    mem_mib: sat32(h.mem_mib, g.mem_mib),
                },
            ),
        },
    }
}

/// `k` when its use is counted elsewhere.
pub open spec fn emptied<'a>(k: ProcInfo<'a>) -> ProcInfo<'a> {
    ProcInfo {
        cpu: 0,
        rss_kib: 0,
        gpu: None,
        age_visible: with_visible(k.age_visible, false),
        ..k
    }
}

/// `p` when the use of `k` is counted in: it is shown if `k` was to be.
pub open spec fn grown<'a>(p: ProcInfo<'a>, k: ProcInfo<'a>) -> ProcInfo<'a> {
    ProcInfo {
        cpu: sat64(p.cpu, k.cpu),
        rss_kib: sat32(p.rss_kib, k.rss_kib),
        gpu: gpu_sum(p.gpu, k.gpu),
        age_visible: if k.shown() {
            with_visible(p.age_visible, true)
        } else {
            p.age_visible
        },
        ..p
    }
}

/// Process `i` counted into its application, if it is a helper.
pub open spec fn coalesced_one<'a>(ps: Seq<ProcInfo<'a>>, i: int) -> Seq<ProcInfo<'a>> {
    match app_of(ps, i) {
        None => ps,
        Some(r) => ps.update(i, emptied(ps[i])).update(r as int, grown(ps[r as int], ps[i])),
    }
}

/// The first `n` processes counted into their applications, one by one.
pub open spec fn coalesced<'a>(ps: Seq<ProcInfo<'a>>, n: nat) -> Seq<ProcInfo<'a>>
    decreases n,
{
    if n == 0 {
        ps
    } else {
        coalesced_one(coalesced(ps, (n - 1) as nat), n - 1)
    }
}

/// `a` and `b` are the same processes, with other use.
pub open spec fn same_people(a: Seq<ProcInfo<'_>>, b: Seq<ProcInfo<'_>>) -> bool {
    &&& a.len() == b.len()
    &&& forall|i: int|
        0 <= i < a.len() ==> (#[trigger] a[i]).pid == b[i].pid && a[i].ppid == b[i].ppid
            && a[i].display == b[i].display
}

/// The same processes are in the same places.
proof fn lemma_same_places(a: Seq<ProcInfo<'_>>, b: Seq<ProcInfo<'_>>, pid: u32)
    requires
        same_people(a, b),
        distinct(a),
        a.len() <= u32::MAX,
    ensures
        place_of(a, pid) == place_of(b, pid),
        distinct(b),
{
    assert forall|i: int, j: int| 0 <= i < j < b.len() implies (#[trigger] b[i]).pid != (
    #[trigger] b[j]).pid by {
        assert(a[i].pid != a[j].pid);
    }
    if place_of(a, pid) is Some {
        lemma_place_is(a, pid);
        let i = place_of(a, pid)->0 as int;
        assert(a[i].pid == b[i].pid);
        lemma_place(b, i);
    } else if place_of(b, pid) is Some {
        lemma_place_is(b, pid);
        let i = place_of(b, pid)->0 as int;
        assert(a[i].pid == b[i].pid);
        assert(is_at(a, i, pid));
    }
}

/// An application is among the processes, and is not called like its helper.
proof fn lemma_app(ps: Seq<ProcInfo<'_>>, name: Seq<u8>, pid: u32, hops: nat)
    requires
        ps.len() <= u32::MAX,
        app_above(ps, name, pid, hops) is Some,
    ensures
        app_above(ps, name, pid, hops)->0 < ps.len(),
        ps[app_above(ps, name, pid, hops)->0 as int].display@ != name,
    decreases hops,
{
    match place_of(ps, pid) {
        None => {},
        Some(p) => {
            lemma_place_is(ps, pid);
            if helper_name(name, ps[p as int].display@) {
                law_no_own_helper(name);
            } else {
                lemma_app(ps, name, ps[p as int].ppid, (hops - 1) as nat);
            }
        },
    }
}

/// Counting helpers in changes nobody's number, parent or name.
pub proof fn law_coalescing_keeps_people(ps: Seq<ProcInfo<'_>>, n: nat)
    requires
        n <= ps.len() <= u32::MAX,
    ensures
        same_people(ps, coalesced(ps, n)),
    decreases n,
{
    if n > 0 {
        law_coalescing_keeps_people(ps, (n - 1) as nat);
        let before = coalesced(ps, (n - 1) as nat);
        if app_of(before, n - 1) is Some {
            lemma_app(before, before[n - 1].display@, before[n - 1].ppid, MAX_HOPS as nat);
        }
    }
}

/// A helper that has just been counted in shows no use of its own and is
/// hidden, and its application is shown if the helper was to be.
pub proof fn law_helper_is_emptied(ps: Seq<ProcInfo<'_>>, i: int)
    requires
        0 <= i < ps.len() <= u32::MAX,
        app_of(ps, i) is Some,
    ensures
        coalesced_one(ps, i)[i] == emptied(ps[i]),
        !coalesced_one(ps, i)[i].shown(),
        coalesced_one(ps, i)[app_of(ps, i)->0 as int].shown() == (ps[app_of(ps, i)->0 as int].shown()
            || ps[i].shown()),
{
    lemma_app(ps, ps[i].display@, ps[i].ppid, MAX_HOPS as nat);
}

/// The shares of all processes together.
pub open spec fn total_cpu(ps: Seq<ProcInfo<'_>>) -> nat
    decreases ps.len(),
{
    if ps.len() == 0 {
        0
    } else {
        total_cpu(ps.drop_last()) + ps.last().cpu as nat
    }
}

proof fn lemma_total_update<'a>(ps: Seq<ProcInfo<'a>>, i: int, p: ProcInfo<'a>)
    requires
        0 <= i < ps.len(),
    ensures
        total_cpu(ps.update(i, p)) == total_cpu(ps) - ps[i].cpu + p.cpu,
    decreases ps.len(),
{
    if i == ps.len() - 1 {
        assert(ps.update(i, p).drop_last() =~= ps.drop_last());
    } else {
        assert(ps.update(i, p).drop_last() =~= ps.drop_last().update(i, p));
        lemma_total_update(ps.drop_last(), i, p);
    }
}

proof fn lemma_total_two(ps: Seq<ProcInfo<'_>>, i: int, j: int)
    requires
        0 <= i < ps.len(),
        0 <= j < ps.len(),
        i != j,
    ensures
        ps[i].cpu + ps[j].cpu <= total_cpu(ps),
    decreases ps.len(),
{
    let rest = ps.drop_last();
    if i == ps.len() - 1 {
        lemma_total_one(rest, j);
    } else if j == ps.len() - 1 {
        lemma_total_one(rest, i);
    } else {
        lemma_total_two(rest, i, j);
    }
}

proof fn lemma_total_one(ps: Seq<ProcInfo<'_>>, i: int)
    requires
        0 <= i < ps.len(),
    ensures
        ps[i].cpu <= total_cpu(ps),
    decreases ps.len(),
{
    if i < ps.len() - 1 {
        lemma_total_one(ps.drop_last(), i);
    }
}

/// Counting helpers in neither loses processor time nor counts any twice.
pub proof fn law_coalescing_keeps_total(ps: Seq<ProcInfo<'_>>, n: nat)
    requires
        n <= ps.len() <= u32::MAX,
        total_cpu(ps) <= u64::MAX,
    ensures
        total_cpu(coalesced(ps, n)) == total_cpu(ps),
    decreases n,
{
    if n > 0 {
        let i = n - 1;
        let before = coalesced(ps, i as nat);
        law_coalescing_keeps_total(ps, i as nat);
        law_coalescing_keeps_people(ps, i as nat);
        if app_of(before, i) is Some {
            lemma_app(before, before[i].display@, before[i].ppid, MAX_HOPS as nat);
            let r = app_of(before, i)->0 as int;
            lemma_total_two(before, i, r);
            let mid = before.update(i, emptied(before[i]));
            lemma_total_update(before, i, emptied(before[i]));
            lemma_total_update(mid, r, grown(before[r], before[i]));
        }
    }
}

/// Counts the use of `k` into `p`.
fn grow(p: &mut ProcInfo<'_>, vis: bool, cpu: u64, rss_kib: u32, gpu: Option<GpuUsage>)
    ensures
        *final(p) == (ProcInfo {
            cpu: sat64(old(p).cpu, cpu),
            rss_kib: sat32(old(p).rss_kib, rss_kib),
            gpu: gpu_sum(old(p).gpu, gpu),
            age_visible: if vis {
                with_visible(old(p).age_visible, true)
            } else {
                old(p).age_visible
            },
            ..*old(p)
        }),
{
    if vis {
        p.set_visible(true);
    }
    p.cpu = p.cpu.saturating_add(cpu);
    p.rss_kib = p.rss_kib.saturating_add(rss_kib);
    match gpu {
        None => {},
        Some(g) => {
            let sum: GpuUsage = match p.gpu {
                None => g,
                Some(h) => GpuUsage {
                    sm_pct: h.sm_pct.wrapping_add(g.sm_pct),
                    mem_mib: h.mem_mib.saturating_add(g.mem_mib),
                },
            };
            p.gpu = Some(sum);
        },
    }
}

/// Hides `k` and takes its use from it.
fn hide_use(k: &mut ProcInfo<'_>)
    ensures
        *final(k) == emptied(*old(k)),
{
    k.set_visible(false);
    k.cpu = 0;
    k.rss_kib = 0;
    k.gpu = None;
}

/// Counts helpers into their applications.
pub fn coalesce_helpers(procs: &mut [ProcInfo<'_>], pid_to_idx: &U32Map<'_, u32>)
    requires
        old(procs)@.len() <= u32::MAX,
        distinct(old(procs)@),
        forall|pid: u32| #[trigger] value_of(pid_to_idx@, pid) == place_of(old(procs)@, pid),
    ensures
        final(procs)@ == coalesced(old(procs)@, old(procs)@.len()),
{
    let ghost before = procs@;
    let n: usize = procs.len();
    for idx in 0..n
        invariant
            n == before.len() <= u32::MAX,
            distinct(before),
            forall|pid: u32| #[trigger] value_of(pid_to_idx@, pid) == place_of(before, pid),
            procs@ == coalesced(before, idx as nat),
    {
        proof {
            law_coalescing_keeps_people(before, idx as nat);
            assert forall|pid: u32| #[trigger] value_of(pid_to_idx@, pid) == place_of(procs@, pid) by {
                lemma_same_places(before, procs@, pid);
            }
        }
        match coalesce_root(&*procs, pid_to_idx, idx) {
            None => {},
            Some(r) => {
                let ghost now = procs@;
                let vis: bool = procs[idx].visible();
                let cpu: u64 = procs[idx].cpu;
                let rss_kib: u32 = procs[idx].rss_kib;
                let gpu: Option<GpuUsage> = procs[idx].gpu;
                proof {
                    lemma_app(now, now[idx as int].display@, now[idx as int].ppid, MAX_HOPS as nat);
                }
                hide_use(&mut procs[idx]);
                grow(&mut procs[r], vis, cpu, rss_kib, gpu);
                assert(procs@ =~= coalesced_one(now, idx as int));
            },
        }
    }
}

/// Whether `p` is busy enough to be shown below a shown process. One that was
/// shown in the last round stays for less.
pub open spec fn qualifies(p: ProcInfo<'_>, prev: Seq<(u32, Packed)>) -> bool {
    let was_shown = match value_of(prev, p.pid) {
        Some(q) => q.was_shown(),
        None => false,
    };
    p.cpu >= (if was_shown {
        CHILD_CPU_KEEP_THRESH
    } else {
        CHILD_CPU_THRESH
    })
}

/// The nearest shown process from `i` up, itself counted, if one that is shown
/// for its own sake is found within `d` steps up.
pub open spec fn anchor_within(
    ps: Seq<ProcInfo<'_>>,
    prev: Seq<(u32, Packed)>,
    i: u32,
    d: nat,
) -> Option<u32>
    decreases d,
{
    if ps[i as int].shown() {
        Some(i)
    } else if d == 0 {
        None
    } else {
        match parent(children_of(ps), i) {
            None => None,
            Some(p) => match anchor_within(ps, prev, p, (d - 1) as nat) {
                None => None,
                Some(a) => Some(
                    if qualifies(ps[i as int], prev) {
                        i
                    } else {
                        a
                    },
                ),
            },
        }
    }
}

/// The nearest shown process from `i` up, itself counted; none if there is no
/// process above it that is shown for its own sake.
pub open spec fn anchor(ps: Seq<ProcInfo<'_>>, prev: Seq<(u32, Packed)>, i: u32) -> Option<u32> {
    if exists|d: nat| anchor_within(ps, prev, i, d) is Some {
        anchor_within(ps, prev, i, choose|d: nat| anchor_within(ps, prev, i, d) is Some)
    } else {
        None
    }
}

/// Process `i` is shown: for its own sake, or because it is busy and stands
/// below one that is.
pub open spec fn is_shown(ps: Seq<ProcInfo<'_>>, prev: Seq<(u32, Packed)>, i: u32) -> bool {
    anchor(ps, prev, i) == Some(i)
}

/// Process `i` with its visibility, and with the nearest shown process above it
/// for a parent if its parent is hidden.
pub open spec fn settled<'a>(
    ps: Seq<ProcInfo<'a>>,
    prev: Seq<(u32, Packed)>,
    i: u32,
) -> ProcInfo<'a> {
    let p = ps[i as int];
    if is_shown(ps, prev, i) {
        ProcInfo {
            age_visible: with_visible(p.age_visible, true),
            ppid: match parent(children_of(ps), i) {
                None => p.ppid,
                Some(b) => match anchor(ps, prev, b) {
                    None => p.ppid,
                    Some(a) => if a == b {
                        p.ppid
                    } else {
                        ps[a as int].pid
                    },
                },
            },
            ..p
        }
    } else {
        p
    }
}

/// All processes, settled.
pub open spec fn all_settled<'a>(ps: Seq<ProcInfo<'a>>, prev: Seq<(u32, Packed)>) -> Seq<
    ProcInfo<'a>,
> {
    Seq::new(ps.len(), |i: int| settled(ps, prev, i as u32))
}

/// The shown ones of `ps`.
pub open spec fn shown_ones<'a>(ps: Seq<ProcInfo<'a>>) -> Seq<ProcInfo<'a>>
    decreases ps.len(),
{
    if ps.len() == 0 {
        Seq::empty()
    } else if ps.last().shown() {
        shown_ones(ps.drop_last()).push(ps.last())
    } else {
        shown_ones(ps.drop_last())
    }
}

/// What is remembered, with those of the shown ones marked.
pub open spec fn marked(next: Seq<(u32, Packed)>, ps: Seq<ProcInfo<'_>>) -> Seq<(u32, Packed)> {
    Seq::new(
        next.len(),
        |i: int|
            if ps[i].shown() {
                (next[i].0, shown_packed(next[i].1))
            } else {
                next[i]
            },
    )
}

/// The search may go further up without another outcome.
proof fn lemma_anchor_same(ps: Seq<ProcInfo<'_>>, prev: Seq<(u32, Packed)>, i: u32, d: nat, e: nat)
    requires
        anchor_within(ps, prev, i, d) is Some,
        anchor_within(ps, prev, i, e) is Some,
    ensures
        anchor_within(ps, prev, i, d) == anchor_within(ps, prev, i, e),
    decreases d,
{
    if !ps[i as int].shown() {
        let p = parent(children_of(ps), i)->0;
        lemma_anchor_same(ps, prev, p, (d - 1) as nat, (e - 1) as nat);
    }
}

/// The outcome of any search that finds something.
proof fn lemma_anchor(ps: Seq<ProcInfo<'_>>, prev: Seq<(u32, Packed)>, i: u32, d: nat)
    requires
        anchor_within(ps, prev, i, d) is Some,
    ensures
        anchor(ps, prev, i) == anchor_within(ps, prev, i, d),
{
    let e = choose|e: nat| anchor_within(ps, prev, i, e) is Some;
    lemma_anchor_same(ps, prev, i, d, e);
}

/// What an anchor is.
proof fn lemma_anchor_unfold(ps: Seq<ProcInfo<'_>>, prev: Seq<(u32, Packed)>, i: u32)
    ensures
        anchor(ps, prev, i) == (if ps[i as int].shown() {
            Some(i)
        } else {
            match parent(children_of(ps), i) {
                None => None,
                Some(p) => match anchor(ps, prev, p) {
                    None => None,
                    Some(a) => Some(
                        if qualifies(ps[i as int], prev) {
                            i
                        } else {
                            a
                        },
                    ),
                },
            }
        }),
{
    if ps[i as int].shown() {
        lemma_anchor(ps, prev, i, 0);
    } else {
        match parent(children_of(ps), i) {
            None => {},
            Some(p) => {
                if exists|d: nat| anchor_within(ps, prev, p, d) is Some {
                    let d = choose|d: nat| anchor_within(ps, prev, p, d) is Some;
                    assert(anchor_within(ps, prev, i, d + 1) is Some);
                    lemma_anchor(ps, prev, i, d + 1);
                } else if exists|d: nat| anchor_within(ps, prev, i, d) is Some {
                    let d = choose|d: nat| anchor_within(ps, prev, i, d) is Some;
                    assert(anchor_within(ps, prev, p, (d - 1) as nat) is Some);
                }
            },
        }
    }
}

/// An anchor is a process that is shown for its own sake or is busy.
proof fn lemma_anchor_is(ps: Seq<ProcInfo<'_>>, prev: Seq<(u32, Packed)>, i: u32, d: nat)
    requires
        ps.len() <= u32::MAX,
        i < ps.len(),
        anchor_within(ps, prev, i, d) is Some,
    ensures
        anchor_within(ps, prev, i, d)->0 < ps.len(),
        ({
            let a = ps[anchor_within(ps, prev, i, d)->0 as int];
            a.shown() || qualifies(a, prev)
        }),
    decreases d,
{
    if !ps[i as int].shown() {
        lemma_children(ps);
        lemma_parent_holds(children_of(ps), i);
        lemma_anchor_is(ps, prev, parent(children_of(ps), i)->0, (d - 1) as nat);
    }
}

/// A process is shown for its own sake, or because it is busy and its parent
/// has a shown process from itself up.
pub proof fn law_shown_iff(ps: Seq<ProcInfo<'_>>, prev: Seq<(u32, Packed)>, i: u32)
    requires
        ps.len() <= u32::MAX,
        i < ps.len(),
    ensures
        is_shown(ps, prev, i) <==> ps[i as int].shown() || (qualifies(ps[i as int], prev) && (
        match parent(children_of(ps), i) {
            Some(p) => anchor(ps, prev, p) is Some,
            None => false,
        })),
        anchor(ps, prev, i) is Some ==> anchor(ps, prev, i)->0 < ps.len(),
{
    lemma_anchor_unfold(ps, prev, i);
    if anchor(ps, prev, i) is Some {
        let d = choose|d: nat| anchor_within(ps, prev, i, d) is Some;
        lemma_anchor_is(ps, prev, i, d);
    }
}

/// The same processes have the same children.
proof fn lemma_same_edges(a: Seq<ProcInfo<'_>>, b: Seq<ProcInfo<'_>>, n: nat)
    requires
        same_people(a, b),
        distinct(a),
        n <= a.len() <= u32::MAX,
    ensures
        edges(a, n) == edges(b, n),
    decreases n,
{
    if n > 0 {
        lemma_same_edges(a, b, (n - 1) as nat);
        assert(a[n - 1].ppid == b[n - 1].ppid);
        lemma_same_places(a, b, a[n - 1].ppid);
    }
}

/// `p` as it is when it is looked at from its parent.
spec fn seen<'a>(
    p: ProcInfo<'a>,
    prev: Seq<(u32, Packed)>,
    under_hidden: bool,
    last_pid: u32,
) -> ProcInfo<'a> {
    if p.shown() || qualifies(p, prev) {
        ProcInfo {
            age_visible: with_visible(p.age_visible, true),
            ppid: if under_hidden {
                last_pid
            } else {
                p.ppid
            },
            ..p
        }
    } else {
        p
    }
}

/// Looks at `k` from its parent. Tells whether it is shown.
fn see(k: &mut ProcInfo<'_>, prev: &U32Map<'_, Packed>, under_hidden: bool, last_pid: u32) -> (r: bool)
    ensures
        *final(k) == seen(*old(k), prev@, under_hidden, last_pid),
        r == (old(k).shown() || qualifies(*old(k), prev@)),
{
    let was_visible: bool = match prev.get(&k.pid) {
        Some(p) => p.visible(),
        None => false,
    };
    let thresh: u64 = if was_visible { CHILD_CPU_KEEP_THRESH } else { CHILD_CPU_THRESH };
    if k.cpu >= thresh {
        k.set_visible(true);
    }
    let vis: bool = k.visible();
    if vis && under_hidden {
        k.ppid = last_pid;
    }
    vis
}

/// Once looked at from its parent, a process is settled.
proof fn lemma_seen<'a>(
    q: Seq<ProcInfo<'a>>,
    prev: Seq<(u32, Packed)>,
    x: u32,
    i: u32,
    a: u32,
    p: ProcInfo<'a>,
)
    requires
        q.len() <= u32::MAX,
        x < q.len(),
        p == q[x as int] || p == settled(q, prev, x),
        parent(children_of(q), x) == Some(i),
        anchor(q, prev, i) == Some(a),
    ensures
        seen(p, prev, a != i, q[a as int].pid) == settled(q, prev, x),
        anchor(q, prev, x) == Some(
            if p.shown() || qualifies(p, prev) {
                x
            } else {
                a
            },
        ),
{
    law_shown_iff(q, prev, x);
    lemma_anchor_unfold(q, prev, x);
}

/// The parent of `x` is in `done`.
spec fn looked_at(q: Seq<ProcInfo<'_>>, done: Set<u32>, x: u32) -> bool {
    match parent(children_of(q), x) {
        Some(p) => done.contains(p),
        None => false,
    }
}

/// `x` is in the queue.
spec fn queued(queue: Seq<(u32, u32)>, x: u32) -> bool {
    exists|k: int| 0 <= k < queue.len() && (#[trigger] queue[k]).0 == x
}

/// What waits in the queue may be looked at from.
spec fn queue_sound(
    q: Seq<ProcInfo<'_>>,
    prev: Seq<(u32, Packed)>,
    done: Set<u32>,
    queue: Seq<(u32, u32)>,
) -> bool {
    forall|k: int|
        0 <= k < queue.len() ==> {
            let x = (#[trigger] queue[k]).0;
            &&& x < q.len()
            &&& anchor(q, prev, x) == Some(queue[k].1)
            &&& q[x as int].shown() || looked_at(q, done, x)
        }
}

/// `order` lists who was ever put into the queue; `flags` tells it.
spec fn flags_sound(n: nat, order: Seq<u32>, flags: Seq<u8>) -> bool {
    &&& flags.len() == n
    &&& order.no_duplicates()
    &&& forall|k: int| 0 <= k < order.len() ==> #[trigger] order[k] < n
    &&& forall|x: u32| x < n ==> ((#[trigger] flags[x as int]) != 0 <==> order.contains(x))
}

/// Whoever was put into the queue is there or is done.
spec fn order_sound(order: Seq<u32>, done: Set<u32>, queue: Seq<(u32, u32)>) -> bool {
    forall|x: u32| #[trigger] order.contains(x) ==> done.contains(x) || queued(queue, x)
}

/// Whose children have been looked at has an anchor, and they have been put
/// into the queue.
spec fn done_sound(
    q: Seq<ProcInfo<'_>>,
    prev: Seq<(u32, Packed)>,
    done: Set<u32>,
    order: Seq<u32>,
) -> bool {
    &&& forall|x: u32| #[trigger] done.contains(x) ==> anchor(q, prev, x) is Some
    &&& forall|y: u32| y < q.len() && looked_at(q, done, y) ==> #[trigger] order.contains(y)
    &&& forall|y: u32|
        y < q.len() && q[y as int].shown() ==> #[trigger] order.contains(y)
}

/// Who has been looked at is settled; the others are as they were.
spec fn procs_sound<'a>(
    q: Seq<ProcInfo<'a>>,
    prev: Seq<(u32, Packed)>,
    done: Set<u32>,
    cur: Seq<ProcInfo<'a>>,
) -> bool {
    &&& cur.len() == q.len()
    &&& forall|x: u32|
        x < q.len() ==> #[trigger] cur[x as int] == (if looked_at(q, done, x) {
            settled(q, prev, x)
        } else {
            q[x as int]
        })
}

/// Whoever has an anchor is done in the end.
proof fn lemma_all_done(
    q: Seq<ProcInfo<'_>>,
    prev: Seq<(u32, Packed)>,
    done: Set<u32>,
    order: Seq<u32>,
    i: u32,
    d: nat,
)
    requires
        q.len() <= u32::MAX,
        i < q.len(),
        done_sound(q, prev, done, order),
        order_sound(order, done, Seq::empty()),
        anchor_within(q, prev, i, d) is Some,
    ensures
        done.contains(i),
    decreases d,
{
    lemma_children(q);
    if q[i as int].shown() {
        assert(order.contains(i));
    } else {
        let p = parent(children_of(q), i)->0;
        lemma_parent_holds(children_of(q), i);
        lemma_all_done(q, prev, done, order, p, (d - 1) as nat);
        assert(looked_at(q, done, i));
        assert(order.contains(i));
    }
    assert(!queued(Seq::empty(), i));
}

/// In the end everyone is settled.
proof fn lemma_end<'a>(
    q: Seq<ProcInfo<'a>>,
    prev: Seq<(u32, Packed)>,
    done: Set<u32>,
    order: Seq<u32>,
    cur: Seq<ProcInfo<'a>>,
)
    requires
        q.len() <= u32::MAX,
        done_sound(q, prev, done, order),
        order_sound(order, done, Seq::empty()),
        procs_sound(q, prev, done, cur),
    ensures
        cur == all_settled(q, prev),
{
    assert forall|i: int| 0 <= i < q.len() implies cur[i] == all_settled(q, prev)[i] by {
        let x = i as u32;
        assert(cur[x as int] == cur[i]);
        if !looked_at(q, done, x) {
            law_shown_iff(q, prev, x);
            lemma_children(q);
            match parent(children_of(q), x) {
                None => {},
                Some(p) => {
                    lemma_parent_holds(children_of(q), x);
                    if anchor(q, prev, p) is Some {
                        let d = choose|d: nat| anchor_within(q, prev, p, d) is Some;
                        lemma_all_done(q, prev, done, order, p, d);
                    }
                },
            }
        }
    }
    assert(cur =~= all_settled(q, prev));
}

/// `done` and part of the children of `i`.
spec fn partly<'a>(
    q: Seq<ProcInfo<'a>>,
    prev: Seq<(u32, Packed)>,
    done: Set<u32>,
    row: Seq<u32>,
    j: int,
    cur: Seq<ProcInfo<'a>>,
) -> bool {
    &&& cur.len() == q.len()
    &&& forall|x: u32|
        x < q.len() ==> #[trigger] cur[x as int] == (if looked_at(q, done, x) || row.take(
            j,
        ).contains(x) {
            settled(q, prev, x)
        } else {
            q[x as int]
        })
}

/// Looks at the children `row` of `i`, whose anchor is `a`.
fn visit_row<R>(
    procs: &mut FVec<'_, ProcInfo<'_>, R>,
    row: &[u32],
    i: u32,
    a: u32,
    prev: &U32Map<'_, Packed>,
    queue: &mut FVec<'_, (u32, u32)>,
    flags: &mut FVec<'_, u8>,
    Ghost(q): Ghost<Seq<ProcInfo<'_>>>,
    Ghost(done): Ghost<Set<u32>>,
    Ghost(order): Ghost<Seq<u32>>,
) -> (r: Ghost<Seq<u32>>)
    requires
        q.len() <= u32::MAX,
        i < q.len(),
        a < q.len(),
        row@ == children_of(q)[i as int],
        anchor(q, prev@, i) == Some(a),
        q[i as int].shown() || looked_at(q, done, i),
        old(procs).wf(),
        old(queue).wf(),
        old(flags).wf(),
        old(queue).cap() >= q.len(),
        old(queue)@.len() <= order.len(),
        procs_sound(q, prev@, done, old(procs)@),
        queue_sound(q, prev@, done, old(queue)@),
        flags_sound(q.len(), order, old(flags)@),
        forall|x: u32| #[trigger]
            order.contains(x) ==> done.insert(i).contains(x) || queued(old(queue)@, x),
        done_sound(q, prev@, done, order),
    ensures
        final(procs).wf(),
        final(procs).same_room(old(procs)),
        final(queue).wf(),
        final(queue).same_room(old(queue)),
        final(flags).wf(),
        final(flags).same_room(old(flags)),
        procs_sound(q, prev@, done.insert(i), final(procs)@),
        queue_sound(q, prev@, done.insert(i), final(queue)@),
        flags_sound(q.len(), r@, final(flags)@),
        order_sound(r@, done.insert(i), final(queue)@),
        done_sound(q, prev@, done.insert(i), r@),
        r@.len() - order.len() == final(queue)@.len() - old(queue)@.len(),
{
    let ghost kids = children_of(q);
    let ghost after = done.insert(i);
    let ghost mut listed = order;
    proof {
        lemma_children(q);
        assert forall|x: u32| looked_at(q, done, x) implies #[trigger] looked_at(q, after, x) by {}
        assert(row@.take(0).len() == 0);
    }
    assert(procs@[i as int] == procs@[i as u32 as int]);
    let under_hidden: bool = !procs.as_slice()[i as usize].visible();
    proof {
        assert(under_hidden == (a != i)) by {
            lemma_anchor_unfold(q, prev@, i);
            law_shown_iff(q, prev@, i);
        }
        assert(procs@[a as int] == procs@[a as u32 as int]);
    }
    let last_pid: u32 = procs.as_slice()[a as usize].pid;
    assert(last_pid == q[a as int].pid);
    let n: usize = row.len();
    for j in 0..n
        invariant
            n == row@.len(),
            q.len() <= u32::MAX,
            i < q.len(),
            kids == children_of(q),
            kids.len() == q.len(),
            tree_shaped(kids),
            row@ == kids[i as int],
            after == done.insert(i),
            anchor(q, prev@, i) == Some(a),
            under_hidden == (a != i),
            last_pid == q[a as int].pid,
            procs.wf(),
            procs.same_room(old(procs)),
            queue.wf(),
            queue.same_room(old(queue)),
            queue.cap() >= q.len(),
            flags.wf(),
            flags.same_room(old(flags)),
            listed.len() - order.len() == queue@.len() - old(queue)@.len(),
            old(queue)@.len() <= order.len(),
            partly(q, prev@, done, row@, j as int, procs@),
            queue_sound(q, prev@, after, queue@),
            flags_sound(q.len(), listed, flags@),
            order_sound(listed, after, queue@),
            done_sound(q, prev@, done, listed),
            row_listed(row@, j as int, listed),
    {
        let kid: u32 = row[j];
        let k: usize = kid as usize;
        let ghost was = procs@;
        let ghost old_queue = queue@;
        let ghost old_listed = listed;
        let ghost old_flags = flags@;
        proof {
            assert(row@.contains(kid));
            assert(holds(kids, i as int, kid));
            lemma_holds_parent(kids, i as int, kid);
            assert(was[kid as int] == q[kid as int] || was[kid as int] == settled(
                q,
                prev@,
                kid,
            ));
            lemma_seen(q, prev@, kid, i, a, was[kid as int]);
            lemma_few_below(listed, q.len());
        }
        let vis: bool = see(&mut procs.as_mut_slice()[k], prev, under_hidden, last_pid);
        let new_last: u32 = if vis { kid } else { a };
        let fresh: bool = flags.as_slice()[k] == 0;
        assert(old_flags[kid as int] != 0 <==> old_listed.contains(kid));
        if fresh {
            flags.as_mut_slice()[k] = 1;
            proof {
                listed = listed.push(kid);
                lemma_push_fresh(q.len(), old_listed, old_flags, kid);
                assert(flags@ =~= old_flags.update(kid as int, 1u8));
                lemma_few_below(listed, q.len());
            }
            let _ = queue.push((kid, new_last));
        }
        proof {
            assert(looked_at(q, after, kid));
            assert(procs@ =~= was.update(kid as int, settled(q, prev@, kid)));
            lemma_row_step(q, prev@, done, row@, j as int, was, kid);
            lemma_queue_step(q, prev@, after, old_queue, old_listed, kid, new_last, fresh);
            lemma_listed_step(row@, j as int, old_listed, listed);
            assert(done_sound(q, prev@, done, listed)) by {
                assert forall|y: u32| y < q.len() && looked_at(q, done, y) implies
                    #[trigger] listed.contains(y) by {
                    assert(old_listed.contains(y));
                    lemma_push_contains(old_listed, kid, y);
                }
                assert forall|y: u32| y < q.len() && q[y as int].shown() implies
                    #[trigger] listed.contains(y) by {
                    assert(old_listed.contains(y));
                    lemma_push_contains(old_listed, kid, y);
                }
            }
        }
    }
    proof {
        assert(row@.take(n as int) =~= row@);
        assert forall|x: u32| x < q.len() implies (#[trigger] looked_at(q, after, x) <==> looked_at(
            q,
            done,
            x,
        ) || row@.contains(x)) by {
            if row@.contains(x) {
                assert(holds(kids, i as int, x));
                lemma_holds_parent(kids, i as int, x);
            }
            if parent(kids, x) == Some(i) {
                lemma_parent_holds(kids, x);
            }
        }
        assert(procs_sound(q, prev@, after, procs@));
        assert forall|y: u32| y < q.len() && looked_at(q, after, y) implies
            #[trigger] listed.contains(y) by {
            if row@.contains(y) {
                assert(row@.take(n as int).contains(y));
            }
        }
        assert(done_sound(q, prev@, after, listed));
    }
    Ghost(listed)
}

/// The first `j` of `row` are listed.
spec fn row_listed(row: Seq<u32>, j: int, listed: Seq<u32>) -> bool {
    forall|x: u32| #[trigger] row.take(j).contains(x) ==> listed.contains(x)
}

/// One more of the row is listed.
proof fn lemma_listed_step(row: Seq<u32>, j: int, before: Seq<u32>, after: Seq<u32>)
    requires
        0 <= j < row.len(),
        row_listed(row, j, before),
        after == before.push(row[j]) || (after == before && before.contains(row[j])),
    ensures
        row_listed(row, j + 1, after),
{
    assert forall|x: u32| #[trigger] row.take(j + 1).contains(x) implies after.contains(x) by {
        lemma_take_contains(row, j, x);
        lemma_push_contains(before, row[j], x);
    }
}

proof fn lemma_push_contains(s: Seq<u32>, v: u32, x: u32)
    ensures
        s.push(v).contains(x) <==> s.contains(x) || x == v,
{
    let t = s.push(v);
    assert(t[s.len() as int] == v);
    if s.contains(x) {
        let k = choose|k: int| 0 <= k < s.len() && s[k] == x;
        assert(t[k] == x);
    }
    if t.contains(x) {
        let k = choose|k: int| 0 <= k < t.len() && t[k] == x;
        if k < s.len() {
            assert(s[k] == x);
        }
    }
}

proof fn lemma_take_contains(s: Seq<u32>, j: int, x: u32)
    requires
        0 <= j < s.len(),
    ensures
        s.take(j + 1).contains(x) <==> s.take(j).contains(x) || x == s[j],
{
    assert(s.take(j + 1) =~= s.take(j).push(s[j]));
    lemma_push_contains(s.take(j), s[j], x);
}

/// One more is put into the queue for the first time.
proof fn lemma_push_fresh(n: nat, order: Seq<u32>, flags: Seq<u8>, kid: u32)
    requires
        flags_sound(n, order, flags),
        kid < n,
        flags[kid as int] == 0,
    ensures
        flags_sound(n, order.push(kid), flags.update(kid as int, 1u8)),
{
    let t = order.push(kid);
    assert(!order.contains(kid));
    assert forall|x: u32| x < n implies ((#[trigger] flags.update(kid as int, 1u8)[x as int]) != 0
        <==> t.contains(x)) by {
        lemma_push_contains(order, kid, x);
        assert(x != kid ==> flags.update(kid as int, 1u8)[x as int] == flags[x as int]);
    }
    assert forall|k: int, l: int| 0 <= k < t.len() && 0 <= l < t.len() && k != l implies t[k]
        != t[l] by {
        if k < order.len() {
            assert(order.contains(order[k]));
        }
        if l < order.len() {
            assert(order.contains(order[l]));
        }
    }
}

/// One more of the row is settled.
proof fn lemma_row_step<'a>(
    q: Seq<ProcInfo<'a>>,
    prev: Seq<(u32, Packed)>,
    done: Set<u32>,
    row: Seq<u32>,
    j: int,
    cur: Seq<ProcInfo<'a>>,
    kid: u32,
)
    requires
        partly(q, prev, done, row, j, cur),
        0 <= j < row.len(),
        kid == row[j],
        kid < q.len(),
    ensures
        partly(q, prev, done, row, j + 1, cur.update(kid as int, settled(q, prev, kid))),
{
    let t = cur.update(kid as int, settled(q, prev, kid));
    assert forall|x: u32| x < q.len() implies #[trigger] t[x as int] == (if looked_at(q, done, x)
        || row.take(j + 1).contains(x) {
        settled(q, prev, x)
    } else {
        q[x as int]
    }) by {
        lemma_take_contains(row, j, x);
        assert(x != kid ==> t[x as int] == cur[x as int]);
    }
}

/// One more has been looked at, and waits in the queue if it had not before.
proof fn lemma_queue_step(
    q: Seq<ProcInfo<'_>>,
    prev: Seq<(u32, Packed)>,
    done: Set<u32>,
    queue: Seq<(u32, u32)>,
    order: Seq<u32>,
    kid: u32,
    last: u32,
    fresh: bool,
)
    requires
        queue_sound(q, prev, done, queue),
        order_sound(order, done, queue),
        kid < q.len(),
        anchor(q, prev, kid) == Some(last),
        looked_at(q, done, kid),
    ensures
        fresh ==> queue_sound(q, prev, done, queue.push((kid, last))),
        fresh ==> order_sound(order.push(kid), done, queue.push((kid, last))),
{
    let t = queue.push((kid, last));
    assert forall|k: int| 0 <= k < t.len() implies ({
        let x = (#[trigger] t[k]).0;
        &&& x < q.len()
        &&& anchor(q, prev, x) == Some(t[k].1)
        &&& q[x as int].shown() || looked_at(q, done, x)
    }) by {
        if k < queue.len() {
            assert(t[k] == queue[k]);
        }
    }
    assert forall|x: u32| #[trigger] order.push(kid).contains(x) implies done.contains(x) || queued(
        t,
        x,
    ) by {
        lemma_push_contains(order, kid, x);
        if x == kid {
            assert(t[queue.len() as int].0 == x);
        } else if queued(queue, x) {
            let k = choose|k: int| 0 <= k < queue.len() && (#[trigger] queue[k]).0 == x;
            assert(t[k].0 == x);
        }
    }
}

/// Shows what is busy below shown processes: looks at the children of all that
/// are shown, and on downwards.
fn spread<R>(
    procs: &mut FVec<'_, ProcInfo<'_>, R>,
    children: &FNest<'_, u32>,
    prev: &U32Map<'_, Packed>,
    queue: &mut FVec<'_, (u32, u32)>,
    flags: &mut FVec<'_, u8>,
)
    requires
        old(procs).wf(),
        old(procs)@.len() <= u32::MAX,
        children.wf(),
        children@ == children_of(old(procs)@),
        old(queue).wf(),
        old(queue)@.len() == 0,
        old(queue).cap() >= old(procs)@.len(),
        old(flags).wf(),
        old(flags)@.len() == 0,
        old(flags).cap() >= old(procs)@.len(),
    ensures
        final(procs).wf(),
        final(procs).same_room(old(procs)),
        final(procs)@ == all_settled(old(procs)@, prev@),
{
    let ghost q = procs@;
    let ghost mut order: Seq<u32> = Seq::empty();
    let ghost mut done: Set<u32> = Set::empty();
    let n: usize = procs.len();
    proof {
        lemma_children(q);
    }
    let mut i: usize = 0;
    while i < n
        invariant
            i <= n == q.len() <= u32::MAX,
            procs@ == q,
            done == Set::<u32>::empty(),
            queue.wf(),
            queue.cap() >= n,
            flags.wf(),
            flags.cap() >= n,
            queue@.len() == order.len() <= i,
            flags_sound(i as nat, order, flags@),
            queue_sound(q, prev@, done, queue@),
            order_sound(order, done, queue@),
            forall|y: u32| y < i && q[y as int].shown() ==> #[trigger] order.contains(y),
        decreases n - i,
    {
        let vis: bool = procs.as_slice()[i].visible();
        let ghost x = i as u32;
        let ghost was = flags@;
        let ghost old_queue = queue@;
        let ghost old_order = order;
        let flag: u8 = if vis { 1 } else { 0 };
        let _ = flags.push(flag);
        if vis {
            let _ = queue.push((i as u32, i as u32));
            proof {
                order = order.push(x);
            }
        }
        proof {
            if old_order.contains(x) {
                let k = choose|k: int| 0 <= k < old_order.len() && old_order[k] == x;
                assert(old_order[k] < i);
            }
            lemma_push_contains(old_order, x, x);
            assert(flags_sound((i + 1) as nat, order, flags@)) by {
                assert forall|y: u32| y < i + 1 implies ((#[trigger] flags@[y as int]) != 0
                    <==> order.contains(y)) by {
                    lemma_push_contains(old_order, x, y);
                    if y < i {
                        assert(flags@[y as int] == was[y as int]);
                    }
                }
                assert forall|k: int, l: int|
                    0 <= k < order.len() && 0 <= l < order.len() && k != l implies order[k]
                    != order[l] by {
                    if k < old_order.len() {
                        assert(old_order.contains(old_order[k]));
                    }
                    if l < old_order.len() {
                        assert(old_order.contains(old_order[l]));
                    }
                }
            }
            if vis {
                lemma_anchor_unfold(q, prev@, x);
                lemma_seed_queued(q, prev@, done, old_queue, old_order, x);
            }
            assert forall|y: u32| y < i + 1 && q[y as int].shown() implies
                #[trigger] order.contains(y) by {
                lemma_push_contains(old_order, x, y);
                if y < i {
                    assert(old_order.contains(y));
                }
            }
        }
        i = i + 1;
    }
    let ghost mut popped: nat = 0;
    proof {
        assert(procs_sound(q, prev@, done, procs@));
        assert(done_sound(q, prev@, done, order));
        lemma_few_below(order, n as nat);
    }
    while queue.len() > 0
        invariant
            n == q.len() <= u32::MAX,
            children.wf(),
            children@ == children_of(q),
            children@.len() == n,
            procs.wf(),
            procs.same_room(old(procs)),
            queue.wf(),
            queue.cap() >= n,
            flags.wf(),
            popped + queue@.len() == order.len() <= n,
            procs_sound(q, prev@, done, procs@),
            queue_sound(q, prev@, done, queue@),
            flags_sound(n as nat, order, flags@),
            order_sound(order, done, queue@),
            done_sound(q, prev@, done, order),
        decreases n - popped,
    {
        let ghost was = queue@;
        if let Some((x, a)) = queue.pop() {
            proof {
                assert(was[was.len() - 1] == (x, a));
                law_shown_iff(q, prev@, x);
                assert forall|k: int| 0 <= k < queue@.len() implies queue@[k] == was[k] by {}
                assert(queue_sound(q, prev@, done, queue@)) by {
                    assert forall|k: int| 0 <= k < queue@.len() implies ({
                        let y = (#[trigger] queue@[k]).0;
                        &&& y < q.len()
                        &&& anchor(q, prev@, y) == Some(queue@[k].1)
                        &&& q[y as int].shown() || looked_at(q, done, y)
                    }) by {
                        assert(queue@[k] == was[k]);
                    }
                }
                assert forall|y: u32| #[trigger] order.contains(y) implies done.insert(x).contains(
                    y,
                ) || queued(queue@, y) by {
                    if y != x && !done.contains(y) {
                        let k = choose|k: int| 0 <= k < was.len() && (#[trigger] was[k]).0 == y;
                        assert(queue@[k].0 == y);
                    }
                }
                popped = popped + 1;
            }
            let row: &[u32] = children.bucket(x as usize);
            let listed: Ghost<Seq<u32>> = visit_row(
                procs,
                row,
                x,
                a,
                prev,
                queue,
                flags,
                Ghost(q),
                Ghost(done),
                Ghost(order),
            );
            proof {
                order = listed@;
                done = done.insert(x);
                lemma_few_below(order, n as nat);
            }
        }
    }
    proof {
        assert(queue@ =~= Seq::empty());
        lemma_end(q, prev@, done, order, procs@);
    }
}

/// One that is shown for its own sake waits in the queue.
proof fn lemma_seed_queued(
    q: Seq<ProcInfo<'_>>,
    prev: Seq<(u32, Packed)>,
    done: Set<u32>,
    queue: Seq<(u32, u32)>,
    order: Seq<u32>,
    x: u32,
)
    requires
        queue_sound(q, prev, done, queue),
        order_sound(order, done, queue),
        x < q.len(),
        q[x as int].shown(),
        anchor(q, prev, x) == Some(x),
    ensures
        queue_sound(q, prev, done, queue.push((x, x))),
        order_sound(order.push(x), done, queue.push((x, x))),
{
    let t = queue.push((x, x));
    assert forall|k: int| 0 <= k < t.len() implies ({
        let y = (#[trigger] t[k]).0;
        &&& y < q.len()
        &&& anchor(q, prev, y) == Some(t[k].1)
        &&& q[y as int].shown() || looked_at(q, done, y)
    }) by {
        if k < queue.len() {
            assert(t[k] == queue[k]);
        }
    }
    assert forall|y: u32| #[trigger] order.push(x).contains(y) implies done.contains(y) || queued(
        t,
        y,
    ) by {
        lemma_push_contains(order, x, y);
        if y == x {
            assert(t[queue.len() as int].0 == y);
        } else if queued(queue, y) {
            let k = choose|k: int| 0 <= k < queue.len() && (#[trigger] queue[k]).0 == y;
            assert(t[k].0 == y);
        }
    }
}

/// Whether `p` is shown.
fn stays(p: &mut ProcInfo<'_>) -> (r: bool)
    ensures
        *final(p) == *old(p),
        r == old(p).shown(),
{
    p.visible()
}

/// Keeping the shown ones.
proof fn lemma_kept_shown<'a>(ps: Seq<ProcInfo<'a>>, outcomes: Seq<(ProcInfo<'a>, bool)>)
    requires
        outcomes.len() == ps.len(),
        forall|i: int|
            0 <= i < ps.len() ==> #[trigger] outcomes[i] == (ps[i], ps[i].shown()),
    ensures
        kept(outcomes) == shown_ones(ps),
    decreases ps.len(),
{
    if ps.len() > 0 {
        assert(outcomes[ps.len() - 1] == (ps.last(), ps.last().shown()));
        assert forall|i: int| 0 <= i < ps.len() - 1 implies #[trigger] outcomes.drop_last()[i] == (
            ps.drop_last()[i],
            ps.drop_last()[i].shown(),
        ) by {
            assert(outcomes[i] == (ps[i], ps[i].shown()));
        }
        lemma_kept_shown(ps.drop_last(), outcomes.drop_last());
    }
}

/// Marks what is remembered of the shown processes.
fn mark_shown(procs: &[ProcInfo<'_>], next: &mut FVec<'_, (u32, Packed)>)
    requires
        old(next).wf(),
        old(next)@.len() == procs@.len(),
    ensures
        final(next).wf(),
        final(next).same_room(old(next)),
        final(next)@ == marked(old(next)@, procs@),
{
    let ghost before = next@;
    let n: usize = procs.len();
    let mut i: usize = 0;
    while i < n
        invariant
            i <= n == procs@.len() == before.len(),
            before == old(next)@,
            next.wf(),
            next.same_room(old(next)),
            next@.len() == n,
            forall|j: int| 0 <= j < i ==> #[trigger] next@[j] == marked(before, procs@)[j],
            forall|j: int| i <= j < n ==> #[trigger] next@[j] == before[j],
        decreases n - i,
    {
        if procs[i].visible() {
            let mut e: (u32, Packed) = next.as_slice()[i];
            e.1.set_visible();
            next.as_mut_slice()[i] = e;
        }
        i = i + 1;
    }
    assert(next@ =~= marked(before, procs@));
}

/// Whether there is room to work on `n` processes of which `e` have their
/// parent among them: the index, the children, the queue and its flags.
pub open spec fn filter_fits(top: nat, n: nat, e: nat) -> bool {
    let children_at = next_start::<(u32, u32)>(top) + bytes_of::<(u32, u32)>(n);
    let queue_at = nest_end::<u32>(children_at, n, e);
    let flags_at = next_start::<(u32, u32)>(queue_at) + bytes_of::<(u32, u32)>(n);
    &&& fits::<(u32, u32)>(top, n)
    &&& nest_fits::<u32>(children_at, n, e)
    &&& fits::<(u32, u32)>(queue_at, n)
    &&& fits::<u8>(flags_at, n)
}

/// The processes that remain of `ps`.
pub open spec fn filtered<'a>(ps: Seq<ProcInfo<'a>>, prev: Seq<(u32, Packed)>) -> Seq<ProcInfo<'a>> {
    shown_ones(all_settled(coalesced(ps, ps.len()), prev))
}

/// Counts helpers into their applications, and keeps those processes that are
/// shown for their own sake, and those below them that are busy. What is
/// remembered of the kept ones is marked.
pub fn filter_with_children<'a, R>(
    frame: &mut Frame<'_>,
    procs: &mut FVec<'a, ProcInfo<'a>, R>,
    prev: &U32Map<'_, Packed>,
    next: &mut FVec<'_, (u32, Packed)>,
)
    requires
        old(procs).wf(),
        old(next).wf(),
        distinct(old(procs)@),
        old(procs)@.len() == old(next)@.len(),
        forall|i: int|
            0 <= i < old(procs)@.len() ==> (#[trigger] old(procs)@[i]).pid == old(next)@[i].0,
        filter_fits(
            old(frame).top(),
            old(procs)@.len(),
            edges(old(procs)@, old(procs)@.len()).len(),
        ),
    ensures
        final(procs).wf(),
        final(procs).same_room(old(procs)),
        final(procs)@ == filtered(old(procs)@, prev@),
        final(next).wf(),
        final(next).same_room(old(next)),
        final(next)@ == marked(
            old(next)@,
            all_settled(coalesced(old(procs)@, old(procs)@.len()), prev@),
        ),
        *final(frame) == *old(frame),
{
    let ghost before = procs@;
    let n: usize = procs.len();
    let mut sub: Frame<'_> = frame.sub();
    let index: FrozenMap<'_, u32> = build_pid_to_idx(&mut sub, procs.as_slice());
    let pid_to_idx: U32Map<'_, u32> = index.as_map();
    let children: FNest<'_, u32> = build_children(&mut sub, procs.as_slice(), &pid_to_idx);
    coalesce_helpers(procs.as_mut_slice(), &pid_to_idx);
    let ghost q = procs@;
    proof {
        law_coalescing_keeps_people(before, before.len());
        lemma_same_edges(before, q, before.len());
        assert(children_of(before) =~= children_of(q));
    }
    let mut queue: FVec<'_, (u32, u32)> = sub.vec("bfs_queue", n as u32);
    let mut enqueued: FVec<'_, u8> = sub.vec("bfs_enqueued", n as u32);
    spread(procs, &children, prev, &mut queue, &mut enqueued);
    let ghost end = procs@;
    mark_shown(procs.as_slice(), next);
    procs.retain_in_place(stays);
    proof {
        let outcomes = choose|outcomes: Seq<(ProcInfo<'a>, bool)>|
            #![trigger kept(outcomes)]
            outcomes.len() == end.len() && procs@ == kept(outcomes) && forall|i: int|
                #[trigger] has_index(outcomes, i) ==> exists|x: &mut ProcInfo<'a>| #[trigger]
                    call_ensures(stays, (x,), outcomes[i].1) && *x == end[i] && *final(x)
                        == outcomes[i].0;
        assert forall|i: int| 0 <= i < end.len() implies #[trigger] outcomes[i] == (
            end[i],
            end[i].shown(),
        ) by {
            assert(has_index(outcomes, i));
            let x = choose|x: &mut ProcInfo<'a>| #[trigger]
                call_ensures(stays, (x,), outcomes[i].1) && *x == end[i] && *final(x)
                    == outcomes[i].0;
        }
        lemma_kept_shown(end, outcomes);
    }
}

/// Whatever remains is marked as shown.
pub proof fn law_remaining_are_shown(ps: Seq<ProcInfo<'_>>)
    ensures
        forall|k: int| 0 <= k < shown_ones(ps).len() ==> (#[trigger] shown_ones(ps)[k]).shown(),
    decreases ps.len(),
{
    if ps.len() > 0 {
        law_remaining_are_shown(ps.drop_last());
        let rest = shown_ones(ps.drop_last());
        assert forall|k: int| 0 <= k < shown_ones(ps).len() implies (
        #[trigger] shown_ones(ps)[k]).shown() by {
            if k < rest.len() {
                assert(shown_ones(ps)[k] == rest[k]);
            }
        }
    }
}

/// A process between the two thresholds is shown below a shown one exactly if
/// it was shown before; above both it always is, below both never.
pub proof fn law_busy_hysteresis(p: ProcInfo<'_>, prev: Seq<(u32, Packed)>)
    ensures
        p.cpu >= CHILD_CPU_THRESH ==> qualifies(p, prev),
        p.cpu < CHILD_CPU_KEEP_THRESH ==> !qualifies(p, prev),
        CHILD_CPU_KEEP_THRESH <= p.cpu < CHILD_CPU_THRESH ==> (qualifies(p, prev) <==> (
        match value_of(prev, p.pid) {
            Some(q) => q.was_shown(),
            None => false,
        })),
{
}

proof fn lemma_anchor_shown(ps: Seq<ProcInfo<'_>>, prev: Seq<(u32, Packed)>, i: u32, d: nat)
    requires
        anchor_within(ps, prev, i, d) is Some,
    ensures
        is_shown(ps, prev, anchor_within(ps, prev, i, d)->0),
    decreases d,
{
    lemma_anchor(ps, prev, i, d);
    if !ps[i as int].shown() && !qualifies(ps[i as int], prev) {
        lemma_anchor_shown(ps, prev, parent(children_of(ps), i)->0, (d - 1) as nat);
    }
}

/// A shown process below a hidden one hangs below a shown process: the nearest
/// one above it.
pub proof fn law_new_parent_is_shown(ps: Seq<ProcInfo<'_>>, prev: Seq<(u32, Packed)>, i: u32)
    requires
        ps.len() <= u32::MAX,
        i < ps.len(),
        is_shown(ps, prev, i),
        parent(children_of(ps), i) is Some,
        !is_shown(ps, prev, parent(children_of(ps), i)->0),
        anchor(ps, prev, parent(children_of(ps), i)->0) is Some,
    ensures
        exists|a: u32|
            a < ps.len() && #[trigger] is_shown(ps, prev, a) && anchor(
                ps,
                prev,
                parent(children_of(ps), i)->0,
            ) == Some(a) && settled(ps, prev, i).ppid == ps[a as int].pid,
{
    let b = parent(children_of(ps), i)->0;
    lemma_children(ps);
    lemma_parent_holds(children_of(ps), i);
    law_shown_iff(ps, prev, b);
    let d = choose|d: nat| anchor_within(ps, prev, b, d) is Some;
    lemma_anchor_shown(ps, prev, b, d);
    assert(is_shown(ps, prev, anchor(ps, prev, b)->0));
}

/// Whether there is room to filter `procs`.
pub fn filter_has_room(frame: &mut Frame<'_>, procs: &[ProcInfo<'_>]) -> (r: bool)
    requires
        procs@.len() <= u32::MAX,
        distinct(procs@),
    ensures
        r == filter_fits(old(frame).top(), procs@.len(), edges(procs@, procs@.len()).len()),
        *final(frame) == *old(frame),
{
    let n: usize = procs.len();
    match count_edges(frame, procs) {
        None => false,
        Some(e) => match end_of_run::<(u32, u32)>(frame.offset(), n) {
            None => false,
            Some(children_at) => match end_of_nest(children_at, n as u32, e) {
                None => false,
                Some(queue_at) => match end_of_run::<(u32, u32)>(queue_at, n) {
                    None => false,
                    Some(flags_at) => end_of_run::<u8>(flags_at, n).is_some(),
                },
            },
        },
    }
}

/// Below a shown process, `p` is busy from one percent of a core on, and from
/// three tenths of a percent on if it was shown in the last round.
pub open spec fn busy(p: ProcInfo<'_>, prev: Seq<(u32, Packed)>) -> bool {
    let was_shown = match value_of(prev, p.pid) {
        Some(q) => q.0 >= 0x8000_0000,
        None => false,
    };
    p.cpu >= 1_000_000 || was_shown && p.cpu >= 300_000
}

/// `line` leads up from its first: each of the others is the parent of the one
/// before it.
pub open spec fn leads_up(ps: Seq<ProcInfo<'_>>, line: Seq<u32>) -> bool {
    &&& line.len() > 0
    &&& forall|i: int| 0 <= i < line.len() ==> (#[trigger] line[i]) < ps.len()
    &&& forall|i: int|
        0 < i < line.len() ==> ps[(#[trigger] line[i]) as int].pid == ps[line[i - 1] as int].ppid
}

proof fn lemma_leads_up(ps: Seq<ProcInfo<'_>>, line: Seq<u32>, i: int)
    requires
        ps.len() <= u32::MAX,
        distinct(ps),
        leads_up(ps, line),
        0 < i < line.len(),
    ensures
        parent(children_of(ps), line[i - 1]) == Some(line[i]),
{
    lemma_children(ps);
    assert(line[i] < ps.len());
    assert(line[i - 1] < ps.len());
    lemma_place(ps, line[i] as int);
}

/// Whom a line leads to that ends with the first process that is shown for its
/// own sake: from place `k` on, the first busy one, or else the last.
proof fn lemma_line_anchor(
    ps: Seq<ProcInfo<'_>>,
    prev: Seq<(u32, Packed)>,
    line: Seq<u32>,
    k: int,
    j: int,
)
    requires
        ps.len() <= u32::MAX,
        distinct(ps),
        leads_up(ps, line),
        ps[line.last() as int].shown(),
        forall|m: int| k <= m < line.len() - 1 ==> !ps[(#[trigger] line[m]) as int].shown(),
        0 <= k <= j < line.len(),
        forall|m: int| k <= m < j ==> !busy(ps[(#[trigger] line[m]) as int], prev),
        j == line.len() - 1 || busy(ps[line[j] as int], prev),
    ensures
        anchor(ps, prev, line[k]) == Some(line[j]),
    decreases line.len() - k,
{
    let x = line[k];
    lemma_anchor_unfold(ps, prev, x);
    assert(busy(ps[x as int], prev) == qualifies(ps[x as int], prev));
    if k < line.len() - 1 {
        assert(!ps[line[k] as int].shown());
        lemma_leads_up(ps, line, k + 1);
        if k < j {
            assert(!busy(ps[line[k] as int], prev));
            lemma_line_anchor(ps, prev, line, k + 1, j);
        } else {
            let n = lemma_first_busy(ps, prev, line, k + 1);
            lemma_line_anchor(ps, prev, line, k + 1, n);
        }
    }
}

/// The first busy one of a line from place `k` on, or else its last.
proof fn lemma_first_busy(
    ps: Seq<ProcInfo<'_>>,
    prev: Seq<(u32, Packed)>,
    line: Seq<u32>,
    k: int,
) -> (n: int)
    requires
        0 <= k < line.len(),
    ensures
        k <= n < line.len(),
        forall|m: int| k <= m < n ==> !busy(ps[(#[trigger] line[m]) as int], prev),
        n == line.len() - 1 || busy(ps[line[n] as int], prev),
    decreases line.len() - k,
{
    if k == line.len() - 1 || busy(ps[line[k] as int], prev) {
        k
    } else {
        lemma_first_busy(ps, prev, line, k + 1)
    }
}

/// A process is shown, for its own sake or because it is busy, if a line leads
/// from it up to one that is shown for its own sake, and it then hangs below
/// the nearest one on the line that is shown: the first that is busy, or else
/// the last of the line. Hidden ones in between are passed over.
pub proof fn law_busy_is_shown_below_shown(
    ps: Seq<ProcInfo<'_>>,
    prev: Seq<(u32, Packed)>,
    line: Seq<u32>,
    j: int,
)
    requires
        ps.len() <= u32::MAX,
        forall|a: int, b: int|
            0 <= a < b < ps.len() ==> (#[trigger] ps[a]).pid != (#[trigger] ps[b]).pid,
        leads_up(ps, line),
        ps[line.last() as int].shown(),
        forall|m: int| 0 < m < line.len() - 1 ==> !ps[(#[trigger] line[m]) as int].shown(),
        ps[line[0] as int].shown() || busy(ps[line[0] as int], prev),
        0 < j < line.len(),
        forall|m: int| 0 < m < j ==> !busy(ps[(#[trigger] line[m]) as int], prev),
        j == line.len() - 1 || busy(ps[line[j] as int], prev),
    ensures
        settled(ps, prev, line[0]).shown(),
        settled(ps, prev, line[0]).ppid == ps[line[j] as int].pid,
        settled(ps, prev, line[0]).pid == ps[line[0] as int].pid,
{
    let x = line[0];
    lemma_line_anchor(ps, prev, line, 1, j);
    lemma_leads_up(ps, line, 1);
    lemma_anchor_unfold(ps, prev, x);
    assert(busy(ps[x as int], prev) == qualifies(ps[x as int], prev));
}

/// A process that is not shown for its own sake stays hidden if it is not busy,
/// and also if nobody above it is shown for its own sake.
pub proof fn law_others_stay_hidden(
    ps: Seq<ProcInfo<'_>>,
    prev: Seq<(u32, Packed)>,
    line: Seq<u32>,
)
    requires
        ps.len() <= u32::MAX,
        forall|a: int, b: int|
            0 <= a < b < ps.len() ==> (#[trigger] ps[a]).pid != (#[trigger] ps[b]).pid,
        leads_up(ps, line),
        !ps[line[0] as int].shown(),
        !busy(ps[line[0] as int], prev) || (forall|m: int|
            0 <= m < line.len() ==> !ps[(#[trigger] line[m]) as int].shown()) && (forall|y: int|
            0 <= y < ps.len() ==> (#[trigger] ps[y]).pid != ps[line.last() as int].ppid),
    ensures
        settled(ps, prev, line[0]) == ps[line[0] as int],
        !settled(ps, prev, line[0]).shown(),
{
    let x = line[0];
    lemma_anchor_unfold(ps, prev, x);
    assert(busy(ps[x as int], prev) == qualifies(ps[x as int], prev));
    if busy(ps[x as int], prev) {
        lemma_no_anchor(ps, prev, line, 0);
    } else {
        lemma_children(ps);
        match parent(children_of(ps), x) {
            None => {},
            Some(p) => {
                if anchor(ps, prev, p) == Some(x) {
                    let d = choose|d: nat| anchor_within(ps, prev, p, d) is Some;
                    lemma_parent_holds(children_of(ps), x);
                    lemma_anchor_is(ps, prev, p, d);
                }
            },
        }
    }
}

proof fn lemma_no_anchor(
    ps: Seq<ProcInfo<'_>>,
    prev: Seq<(u32, Packed)>,
    line: Seq<u32>,
    k: int,
)
    requires
        ps.len() <= u32::MAX,
        distinct(ps),
        leads_up(ps, line),
        0 <= k < line.len(),
        forall|m: int| 0 <= m < line.len() ==> !ps[(#[trigger] line[m]) as int].shown(),
        forall|y: int| 0 <= y < ps.len() ==> (#[trigger] ps[y]).pid != ps[line.last() as int].ppid,
    ensures
        anchor(ps, prev, line[k]) is None,
    decreases line.len() - k,
{
    let x = line[k];
    assert(!ps[line[k] as int].shown());
    lemma_anchor_unfold(ps, prev, x);
    if k < line.len() - 1 {
        lemma_leads_up(ps, line, k + 1);
        lemma_no_anchor(ps, prev, line, k + 1);
    } else {
        lemma_children(ps);
        assert(line[k] < ps.len());
        if place_of(ps, ps[x as int].ppid) is Some {
            lemma_place_is(ps, ps[x as int].ppid);
        }
    }
}

/// The filter keeps exactly the shown ones, each with its use as it is once
/// helpers are counted in, and in their order.
pub proof fn law_filter_keeps_the_shown(ps: Seq<ProcInfo<'_>>, prev: Seq<(u32, Packed)>, i: int)
    requires
        0 <= i < ps.len() <= u32::MAX,
    ensures
        ({
            let p = settled(coalesced(ps, ps.len()), prev, i as u32);
            let q = coalesced(ps, ps.len())[i];
            &&& p.shown() ==> filtered(ps, prev).contains(p)
            &&& p.pid == ps[i].pid
            &&& p.cpu == q.cpu && p.rss_kib == q.rss_kib && p.gpu == q.gpu && p.display
                == ps[i].display
            &&& p.age() == q.age()
        }),
        filtered(ps, prev).len() <= ps.len(),
        forall|k: int|
            0 <= k < filtered(ps, prev).len() ==> (#[trigger] filtered(ps, prev)[k]).shown()
                && exists|m: int|
                0 <= m < ps.len() && filtered(ps, prev)[k] == #[trigger] settled(
                    coalesced(ps, ps.len()),
                    prev,
                    m as u32,
                ),
{
    law_coalescing_keeps_people(ps, ps.len());
    let q = coalesced(ps, ps.len());
    let all = all_settled(q, prev);
    assert(ps[i].pid == q[i].pid);
    lemma_shown_ones(all);
    assert(all[i] == settled(q, prev, i as u32));
    assert forall|k: int| 0 <= k < filtered(ps, prev).len() implies (
    #[trigger] filtered(ps, prev)[k]).shown() && exists|m: int|
        0 <= m < ps.len() && filtered(ps, prev)[k] == #[trigger] settled(q, prev, m as u32) by {
        let e = shown_ones(all)[k];
        assert(all.contains(e));
        let m = choose|m: int| 0 <= m < all.len() && all[m] == e;
        assert(e == settled(q, prev, m as u32));
    }
}

/// The shown ones are some of all, and all that are shown.
proof fn lemma_shown_ones<'a>(ps: Seq<ProcInfo<'a>>)
    ensures
        shown_ones(ps).len() <= ps.len(),
        forall|i: int| 0 <= i < ps.len() && (#[trigger] ps[i]).shown() ==> shown_ones(ps).contains(ps[i]),
        forall|k: int|
            0 <= k < shown_ones(ps).len() ==> (#[trigger] shown_ones(ps)[k]).shown() && ps.contains(
                shown_ones(ps)[k],
            ),
    decreases ps.len(),
{
    if ps.len() > 0 {
        let less = ps.drop_last();
        lemma_shown_ones(less);
        let a = shown_ones(less);
        let b = shown_ones(ps);
        assert forall|i: int| 0 <= i < ps.len() && (#[trigger] ps[i]).shown() implies b.contains(
            ps[i],
        ) by {
            if i < less.len() {
                assert(less[i] == ps[i]);
                assert(a.contains(ps[i]));
                let k = choose|k: int| 0 <= k < a.len() && a[k] == ps[i];
                assert(b[k] == ps[i]);
            } else {
                assert(b[b.len() - 1] == ps[i]);
            }
        }
        assert forall|k: int| 0 <= k < b.len() implies (#[trigger] b[k]).shown() && ps.contains(
            b[k],
        ) by {
            if k < a.len() {
                assert(b[k] == a[k]);
                assert(less.contains(a[k]));
                let i = choose|i: int| 0 <= i < less.len() && less[i] == a[k];
                assert(ps[i] == b[k]);
            } else {
                assert(ps[ps.len() - 1] == b[k]);
            }
        }
    }
}

/// What is remembered keeps its numbers and its times, and is marked exactly
/// for those that are shown, or were marked before.
pub proof fn law_memory_marks_the_shown(next: Seq<(u32, Packed)>, ps: Seq<ProcInfo<'_>>, i: int)
    requires
        0 <= i < next.len() == ps.len(),
    ensures
        marked(next, ps).len() == next.len(),
        marked(next, ps)[i].0 == next[i].0,
        marked(next, ps)[i].1.0 % 0x8000_0000 == next[i].1.0 % 0x8000_0000,
        marked(next, ps)[i].1.0 >= 0x8000_0000 <==> ps[i].age_visible >= 0x8000_0000 || next[i].1.0
            >= 0x8000_0000,
{
}

/// A helper is called like its application, with ` Helper` behind it, whatever
/// follows; nothing else is one.
pub proof fn law_helper_names(root: Seq<u8>, rest: Seq<u8>, kid: Seq<u8>)
    ensures
        helper_name(root + utf8_of(" Helper") + rest, root),
        helper_name(kid, root) ==> kid.len() >= root.len() + 7 && kid.take(root.len() as int) == root
            && kid.subrange(root.len() as int, root.len() + 7 as int) == utf8_of(" Helper"),
{
    broadcast use vstd::string::is_ascii_spec_bytes;

    reveal_strlit(" Helper");
    assert(vstd::string::is_ascii(" Helper"));
    let name = root + utf8_of(" Helper");
    assert((name + rest).take(name.len() as int) =~= name);
    if helper_name(kid, root) {
        assert(kid.take(root.len() as int) =~= kid.take(name.len() as int).take(root.len() as int));
        assert(name.take(root.len() as int) =~= root);
        assert(kid.subrange(root.len() as int, root.len() + 7 as int) =~= kid.take(
            name.len() as int,
        ).skip(root.len() as int));
        assert(name.skip(root.len() as int) =~= utf8_of(" Helper"));
    }
}

/// The application of a helper is the nearest process above it that it is a
/// helper of, if that is no more than 64 steps up.
pub proof fn law_application_is_the_nearest(ps: Seq<ProcInfo<'_>>, line: Seq<u32>)
    requires
        ps.len() <= u32::MAX,
        forall|a: int, b: int|
            0 <= a < b < ps.len() ==> (#[trigger] ps[a]).pid != (#[trigger] ps[b]).pid,
        leads_up(ps, line),
        1 < line.len() <= 65,
        helper_name(ps[line[0] as int].display@, ps[line.last() as int].display@),
        forall|m: int|
            0 < m < line.len() - 1 ==> !helper_name(
                ps[line[0] as int].display@,
                ps[(#[trigger] line[m]) as int].display@,
            ),
    ensures
        app_of(ps, line[0] as int) == Some(line.last()),
{
    lemma_app_on_line(ps, line, 1, 64);
}

proof fn lemma_app_on_line(ps: Seq<ProcInfo<'_>>, line: Seq<u32>, k: int, hops: nat)
    requires
        ps.len() <= u32::MAX,
        distinct(ps),
        leads_up(ps, line),
        0 < k < line.len(),
        hops >= line.len() - k,
        helper_name(ps[line[0] as int].display@, ps[line.last() as int].display@),
        forall|m: int|
            0 < m < line.len() - 1 ==> !helper_name(
                ps[line[0] as int].display@,
                ps[(#[trigger] line[m]) as int].display@,
            ),
    ensures
        app_above(ps, ps[line[0] as int].display@, ps[line[k - 1] as int].ppid, hops) == Some(
            line.last(),
        ),
    decreases line.len() - k,
{
    assert(line[k] < ps.len());
    lemma_place(ps, line[k] as int);
    if k < line.len() - 1 {
        lemma_app_on_line(ps, line, k + 1, (hops - 1) as nat);
    }
}

/// What a helper uses moves to its application, and nothing is lost: processor
/// time and memory add up, as far as they can be counted, and so do the shares
/// of the graphics processor. Everybody else stays as they are.
pub proof fn law_use_moves_to_the_application(ps: Seq<ProcInfo<'_>>, i: int, m: int)
    requires
        0 <= i < ps.len() <= u32::MAX,
        0 <= m < ps.len(),
        app_of(ps, i) is Some,
    ensures
        ({
            let r = app_of(ps, i)->0 as int;
            let after = coalesced_one(ps, i);
            &&& 0 <= r < ps.len() && r != i
            &&& after.len() == ps.len()
            &&& after[r].cpu == (if ps[r].cpu + ps[i].cpu <= u64::MAX {
                ps[r].cpu + ps[i].cpu
            } else {
                u64::MAX as int
            })
            &&& after[r].rss_kib == (if ps[r].rss_kib + ps[i].rss_kib <= u32::MAX {
                ps[r].rss_kib + ps[i].rss_kib
            } else {
                u32::MAX as int
            })
            &&& ps[i].gpu is None ==> after[r].gpu == ps[r].gpu
            &&& ps[r].gpu is None ==> after[r].gpu == ps[i].gpu
            &&& ps[i].gpu is Some && ps[r].gpu is Some && ps[i].gpu->0.sm_pct + ps[r].gpu->0.sm_pct
                <= u32::MAX && ps[i].gpu->0.mem_mib + ps[r].gpu->0.mem_mib <= u32::MAX
                ==> after[r].gpu is Some && after[r].gpu->0.sm_pct == ps[i].gpu->0.sm_pct
                + ps[r].gpu->0.sm_pct && after[r].gpu->0.mem_mib == ps[i].gpu->0.mem_mib
                + ps[r].gpu->0.mem_mib
            &&& after[i].cpu == 0 && after[i].rss_kib == 0 && after[i].gpu is None
            &&& after[i].age_visible < 0x8000_0000
            &&& after[r].age_visible % 0x8000_0000 == ps[r].age_visible % 0x8000_0000
            &&& m != i && m != r ==> after[m] == ps[m]
        }),
{
    lemma_app(ps, ps[i].display@, ps[i].ppid, MAX_HOPS as nat);
}

/// The same processes have the same applications.
proof fn lemma_same_app(
    a: Seq<ProcInfo<'_>>,
    b: Seq<ProcInfo<'_>>,
    name: Seq<u8>,
    pid: u32,
    hops: nat,
)
    requires
        same_people(a, b),
        distinct(a),
        a.len() <= u32::MAX,
    ensures
        app_above(a, name, pid, hops) == app_above(b, name, pid, hops),
    decreases hops,
{
    lemma_same_places(a, b, pid);
    if hops > 0 && place_of(a, pid) is Some {
        lemma_place_is(a, pid);
        let p = place_of(a, pid)->0 as int;
        assert(a[p].pid == b[p].pid);
        lemma_same_app(a, b, name, a[p].ppid, (hops - 1) as nat);
    }
}

/// In the end every helper that has no helpers of its own is empty and hidden,
/// and every process that neither is nor has a helper is as it was.
pub proof fn law_helpers_end_up_empty(ps: Seq<ProcInfo<'_>>, n: nat, i: int)
    requires
        n <= ps.len() <= u32::MAX,
        forall|a: int, b: int|
            0 <= a < b < ps.len() ==> (#[trigger] ps[a]).pid != (#[trigger] ps[b]).pid,
        0 <= i < ps.len(),
        forall|j: int| 0 <= j < ps.len() ==> #[trigger] app_of(ps, j) != Some(i as u32),
    ensures
        coalesced(ps, n).len() == ps.len(),
        app_of(ps, i) is None || n <= i ==> coalesced(ps, n)[i] == ps[i],
        app_of(ps, i) is Some && i < n ==> {
            let p = coalesced(ps, n)[i];
            p.cpu == 0 && p.rss_kib == 0 && p.gpu is None && p.age_visible < 0x8000_0000
        },
    decreases n,
{
    if n > 0 {
        let before = coalesced(ps, (n - 1) as nat);
        law_helpers_end_up_empty(ps, (n - 1) as nat, i);
        law_coalescing_keeps_people(ps, (n - 1) as nat);
        assert(ps[n - 1].ppid == before[n - 1].ppid);
        lemma_same_app(ps, before, ps[n - 1].display@, ps[n - 1].ppid, MAX_HOPS as nat);
        assert(app_of(ps, n - 1) == app_of(before, n - 1));
        if app_of(before, n - 1) is Some {
            lemma_app(before, before[n - 1].display@, before[n - 1].ppid, MAX_HOPS as nat);
        }
    }
}

/// What a helper and its application use of the graphics processor adds up.
pub proof fn law_graphics_use_adds_up(a: GpuUsage, b: GpuUsage)
    ensures
        gpu_sum(None, Some(b)) == Some(b),
        gpu_sum(Some(a), None) == Some(a),
        gpu_sum(None, None) is None,
        gpu_sum(Some(a), Some(b)) is Some,
        a.sm_pct + b.sm_pct <= u32::MAX ==> gpu_sum(Some(a), Some(b))->0.sm_pct == a.sm_pct
            + b.sm_pct,
        a.mem_mib + b.mem_mib <= u32::MAX ==> gpu_sum(Some(a), Some(b))->0.mem_mib == a.mem_mib
            + b.mem_mib,
        a.mem_mib + b.mem_mib > u32::MAX ==> gpu_sum(Some(a), Some(b))->0.mem_mib == 0xffff_ffff,
{
}

} // verus!
