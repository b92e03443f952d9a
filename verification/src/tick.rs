//! One round, from what was read to what is shown and remembered.

use crate::arena::{next_start, FSpan, FVec, Frame};
use crate::collect::{attach_gpu, collect_has_room, collect_procs, with_gpu, Reading, Round};
use crate::filter::{
    all_settled, coalesced, filter_fits, filter_has_room, filter_with_children, filtered,
    law_coalescing_keeps_people, law_filter_keeps_the_shown, law_memory_marks_the_shown, marked,
    settled, shown_ones,
};
use crate::gpu::{shown_usage, GpuInfo, GpuProc, GpuUsage};
use crate::layout::bytes_of;
use crate::map::value_of;
use crate::procfs::{LoadAvg, MemInfo};
use crate::platform::Platform;
use crate::procinfo::{Packed, ProcInfo, ProcRecord};
use crate::render::{law_layout_can_be_drawn, screen, screen_text, Listing, Status, Style};
use crate::sort::{ascending, sort_by_u32_key, U32Key};
use crate::tree::{
    distinct, edges, layout, layout_fits, layout_has_room, tree_layout, Indent,
};
use vstd::prelude::*;

verus! {

/// What a round goes by.
pub struct Tick<'b, 'a> {
    pub round: &'b Round<'a>,
    pub readings: &'b Vec<Reading>,
    pub gpu: &'b GpuInfo<'a>,
    pub load: &'b LoadAvg,
    pub num_cpus: u32,
    pub mem: MemInfo,
    pub style: Style,
    pub height: usize,
}

impl<'b, 'a> Tick<'b, 'a> {
    /// The readings can be taken apart and are of different processes.
    pub open spec fn sound(&self) -> bool {
        &&& self.round.sound()
        &&& self.num_cpus > 0
        &&& self.readings@.len() <= u32::MAX
        &&& forall|i: int|
            0 <= i < self.readings@.len() ==> self.round.takes(#[trigger] self.readings@[i])
        &&& forall|i: int, j: int|
            0 <= i < j < self.readings@.len() ==> (#[trigger] self.readings@[i]).pid != (
            #[trigger] self.readings@[j]).pid
    }

    /// The status line.
    pub open spec fn status(&self) -> Status<'b, 'a> {
        Status { load: self.load, num_cpus: self.num_cpus, mem: self.mem, gpu: self.gpu }
    }

    /// `ps` are the processes that were read, with their shares of the graphics
    /// processors.
    pub open spec fn told(&self, ps: Seq<ProcInfo<'_>>) -> bool {
        &&& ps.len() == self.readings@.len()
        &&& forall|i: int|
            0 <= i < ps.len() ==> {
                let p = #[trigger] ps[i];
                &&& self.round.is_process(self.readings@[i], (ProcInfo { gpu: None, ..p }))
                &&& p.gpu == shown_usage(
                    self.round.platform,
                    value_of(self.gpu.procs@, p.pid),
                )
            }
    }

    /// `rs` is what is remembered of them.
    pub open spec fn remembered(&self, rs: Seq<(u32, Packed)>) -> bool {
        &&& rs.len() == self.readings@.len()
        &&& forall|i: int|
            0 <= i < rs.len() ==> self.round.is_remembered(self.readings@[i], #[trigger] rs[i])
    }

    /// `ps` were read, and `shown` are those that remain of them, in the order
    /// of their numbers.
    pub open spec fn shows<'p>(&self, ps: Seq<ProcInfo<'p>>, shown: Seq<ProcInfo<'p>>) -> bool {
        &&& self.told(ps)
        &&& ascending(shown)
        &&& shown.to_multiset() == filtered(ps, self.round.prev@).to_multiset()
    }

    /// `next` is what is remembered of `ps` and `rs`, by number.
    pub open spec fn keeps(
        &self,
        ps: Seq<ProcInfo<'_>>,
        rs: Seq<(u32, Packed)>,
        next: Seq<(u32, Packed)>,
    ) -> bool {
        &&& self.remembered(rs)
        &&& ascending(next)
        &&& next.to_multiset() == marked(
            rs,
            all_settled(coalesced(ps, ps.len()), self.round.prev@),
        ).to_multiset()
    }

    /// The round comes to this screen, and to this memory; a frame that was
    /// filled up to `top` is then filled up to `end`.
    pub open spec fn comes_to(
        &self,
        text: Seq<u8>,
        next: Seq<(u32, Packed)>,
        top: nat,
        end: nat,
    ) -> bool {
        exists|ps: Seq<ProcInfo<'_>>, rs: Seq<(u32, Packed)>, shown: Seq<ProcInfo<'_>>|
            #![trigger self.shows(ps, shown), self.keeps(ps, rs, next)]
            self.shows(ps, shown) && self.keeps(ps, rs, next) && self.draws(shown, text) && end
                == self.laid_out_at(top, shown)
    }

    /// Where the frame ends behind the processes of the round, if it was filled
    /// up to `top`.
    pub open spec fn collected_at(&self, top: nat) -> nat {
        self.round.texts_at(top, self.readings@.len()) + self.round.display_bytes(
            self.readings@,
            self.readings@.len(),
        )
    }

    /// Where what is remembered lies, behind the processes, if the frame was
    /// filled up to `top`.
    pub open spec fn memory_at(&self, top: nat) -> nat {
        next_start::<(u32, Packed)>(
            next_start::<ProcRecord>(top) + bytes_of::<ProcRecord>(self.readings@.len()),
        )
    }

    /// Where the frame ends behind the tree of `shown`, if it was filled up to
    /// `top`.
    pub open spec fn laid_out_at(&self, top: nat, shown: Seq<ProcInfo<'_>>) -> nat {
        next_start::<(Indent, u32)>(self.collected_at(top)) + bytes_of::<(Indent, u32)>(
            layout(shown).len(),
        )
    }

    /// There is no room to choose among the processes that were read.
    pub open spec fn lacks_for_choice(&self, top: nat) -> bool {
        exists|ps: Seq<ProcInfo<'_>>| #[trigger]
            self.told(ps) && !filter_fits(
                self.collected_at(top),
                ps.len(),
                edges(ps, ps.len()).len(),
            )
    }

    /// There is no room to lay out the processes that are shown.
    pub open spec fn lacks_for_layout(&self, top: nat) -> bool {
        exists|ps: Seq<ProcInfo<'_>>, shown: Seq<ProcInfo<'_>>| #[trigger]
            self.shows(ps, shown) && !layout_fits(
                self.collected_at(top),
                shown.len(),
                edges(shown, shown.len()).len(),
            )
    }

    /// `text` is the screen of `shown`.
    pub open spec fn draws(&self, shown: Seq<ProcInfo<'_>>, text: Seq<u8>) -> bool {
        exists|l: Listing<'_, '_>|
            l.procs@ == shown && l.tree@ == layout(shown) && text == #[trigger] screen_text(
                self.style,
                self.status(),
                l,
                self.height,
            )
    }
}

/// What remains of different processes are different processes.
proof fn lemma_shown_distinct(ps: Seq<ProcInfo<'_>>)
    requires
        distinct(ps),
    ensures
        distinct(shown_ones(ps)),
        forall|k: int|
            0 <= k < shown_ones(ps).len() ==> exists|i: int|
                0 <= i < ps.len() && (#[trigger] shown_ones(ps)[k]) == #[trigger] ps[i],
        shown_ones(ps).len() <= ps.len(),
    decreases ps.len(),
{
    if ps.len() > 0 {
        let rest = ps.drop_last();
        assert forall|i: int, j: int| 0 <= i < j < rest.len() implies (#[trigger] rest[i]).pid != (
        #[trigger] rest[j]).pid by {
            assert(ps[i].pid != ps[j].pid);
        }
        lemma_shown_distinct(rest);
        let some = shown_ones(rest);
        let all = shown_ones(ps);
        assert forall|k: int| 0 <= k < all.len() implies exists|i: int|
            0 <= i < ps.len() && (#[trigger] all[k]) == #[trigger] ps[i] by {
            if k < some.len() {
                assert(all[k] == some[k]);
                let i = choose|i: int| 0 <= i < rest.len() && some[k] == #[trigger] rest[i];
                assert(ps[i] == all[k]);
            } else {
                assert(ps[ps.len() - 1] == all[k]);
            }
        }
        assert forall|k: int, l: int| 0 <= k < l < all.len() implies (#[trigger] all[k]).pid != (
        #[trigger] all[l]).pid by {
            assert(all[k] == some[k]);
            if l < some.len() {
                assert(all[l] == some[l]);
            } else {
                let i = choose|i: int| 0 <= i < rest.len() && some[k] == #[trigger] rest[i];
                assert(ps[i].pid != ps[ps.len() - 1].pid);
            }
        }
    }
}

/// Different processes stay different in another order.
proof fn lemma_sorted_distinct(a: Seq<ProcInfo<'_>>, b: Seq<ProcInfo<'_>>)
    requires
        distinct(a),
        a.to_multiset() == b.to_multiset(),
    ensures
        distinct(b),
        b.len() == a.len(),
{
    assert(a.no_duplicates()) by {
        assert forall|i: int, j: int| 0 <= i < a.len() && 0 <= j < a.len() && i != j implies a[i]
            != a[j] by {
            if i < j {
                assert(a[i].pid != a[j].pid);
            } else {
                assert(a[j].pid != a[i].pid);
            }
        }
    }
    a.lemma_multiset_has_no_duplicates();
    a.to_multiset_ensures();
    b.to_multiset_ensures();
    b.lemma_multiset_has_no_duplicates_conv();
    assert forall|i: int, j: int| 0 <= i < j < b.len() implies (#[trigger] b[i]).pid != (
    #[trigger] b[j]).pid by {
        assert(b.contains(b[i]) && b.contains(b[j]));
        assert(b.to_multiset().count(b[i]) > 0 && b.to_multiset().count(b[j]) > 0);
        assert(a.contains(b[i]) && a.contains(b[j]));
        let k = choose|k: int| 0 <= k < a.len() && a[k] == b[i];
        let l = choose|l: int| 0 <= l < a.len() && a[l] == b[j];
        assert(b[i] != b[j]);
        if k < l {
            assert(a[k].pid != a[l].pid);
        } else {
            assert(a[l].pid != a[k].pid);
        }
    }
}

/// What remains of different processes, in any order, are different processes.
proof fn lemma_remaining_distinct(
    ps: Seq<ProcInfo<'_>>,
    prev: Seq<(u32, Packed)>,
    shown: Seq<ProcInfo<'_>>,
)
    requires
        ps.len() <= u32::MAX,
        distinct(ps),
        shown.to_multiset() == filtered(ps, prev).to_multiset(),
    ensures
        distinct(shown),
        shown.len() <= ps.len(),
{
    let q = coalesced(ps, ps.len());
    law_coalescing_keeps_people(ps, ps.len());
    let all = all_settled(q, prev);
    assert forall|i: int, j: int| 0 <= i < j < all.len() implies (#[trigger] all[i]).pid != (
    #[trigger] all[j]).pid by {
        assert(ps[i].pid == q[i].pid && ps[j].pid == q[j].pid);
        assert(ps[i].pid != ps[j].pid);
    }
    lemma_shown_distinct(all);
    lemma_sorted_distinct(filtered(ps, prev), shown);
}

/// What a round found no room for.
pub enum Lack {
    /// The processes.
    Processes,
    /// The choice of those that are shown.
    Choice,
    /// The tree.
    Layout,
}

/// Makes the list of processes, with their shares of the graphics processors.
fn gather<'p>(frame: &mut Frame<'p>, t: &Tick<'_, '_>) -> (r: (
    FVec<'p, ProcInfo<'p>, ProcRecord>,
    FVec<'p, (u32, Packed)>,
))
    requires
        t.sound(),
        t.round.collect_fits(old(frame).top(), t.readings@),
    ensures
        r.0.wf(),
        r.1.wf(),
        t.told(r.0@),
        t.remembered(r.1@),
        distinct(r.0@),
        r.0@.len() == r.1@.len(),
        forall|i: int| 0 <= i < r.0@.len() ==> (#[trigger] r.0@[i]).pid == r.1@[i].0,
        r.1.at() == t.memory_at(old(frame).top()),
        final(frame).top() == t.collected_at(old(frame).top()),
{
    let (mut procs, next): (FVec<'p, ProcInfo<'p>, ProcRecord>, FVec<'p, (u32, Packed)>) = collect_procs(
        frame,
        t.round,
        t.readings,
    );
    let ghost read = procs@;
    let ghost rs = next@;
    attach_gpu(t.round.platform, procs.as_mut_slice(), t.gpu);
    let ghost ps = procs@;
    proof {
        assert forall|i: int| 0 <= i < ps.len() implies ({
            let p = #[trigger] ps[i];
            &&& t.round.is_process(t.readings@[i], (ProcInfo { gpu: None, ..p }))
            &&& p.gpu == shown_usage(t.round.platform, value_of(t.gpu.procs@, p.pid))
        }) by {
            lemma_gathered(t, read[i], ps[i], i);
        }
        assert forall|i: int| 0 <= i < ps.len() implies (#[trigger] ps[i]).pid == rs[i].0 && ps[i].pid
            == t.readings@[i].pid by {
            assert(t.round.is_process(t.readings@[i], read[i]));
            assert(t.round.is_remembered(t.readings@[i], rs[i]));
        }
        assert forall|i: int, j: int| 0 <= i < j < ps.len() implies (#[trigger] ps[i]).pid != (
        #[trigger] ps[j]).pid by {
            assert(t.readings@[i].pid != t.readings@[j].pid);
        }
    }
    (procs, next)
}

proof fn lemma_gathered<'p>(t: &Tick<'_, '_>, before: ProcInfo<'p>, p: ProcInfo<'p>, i: int)
    requires
        t.round.is_process(t.readings@[i], before),
        p == with_gpu(
            before,
            shown_usage(t.round.platform, value_of(t.gpu.procs@, before.pid)),
        ),
    ensures
        t.round.is_process(t.readings@[i], (ProcInfo { gpu: None, ..p })),
        p.gpu == shown_usage(t.round.platform, value_of(t.gpu.procs@, p.pid)),
{
    assert((ProcInfo { gpu: None, ..p }) == before);
}

/// The screen of `procs`.
fn show(t: &Tick<'_, '_>, procs: &[ProcInfo<'_>], tree: &[(Indent, u32)]) -> (r: Vec<u8>)
    requires
        t.num_cpus > 0,
        procs@.len() <= u32::MAX,
        tree@ == layout(procs@),
    ensures
        t.draws(procs@, r@),
{
    let status: Status<'_, '_> = Status {
        load: t.load,
        num_cpus: t.num_cpus,
        mem: t.mem,
        gpu: t.gpu,
    };
    let listing: Listing<'_, '_> = Listing { procs, tree };
    proof {
        law_layout_can_be_drawn(listing);
    }
    let r: Vec<u8> = screen(t.style, &status, &listing, t.height);
    assert(status == t.status());
    assert(r@ == screen_text(t.style, t.status(), listing, t.height));
    r
}

/// Draws a round: the screen, and what is remembered for the next round.
pub fn tick<'p>(frame: &mut Frame<'p>, t: &Tick<'_, '_>) -> (r: Result<
    (Vec<u8>, FSpan<'p, (u32, Packed)>),
    Lack,
>)
    requires
        t.sound(),
    ensures
        match r {
            Ok((text, next)) => t.comes_to(
                text@,
                next@,
                old(frame).top(),
                final(frame).top(),
            ) && next.wf() && next.at() == t.memory_at(old(frame).top()),
            Err(Lack::Processes) => !t.round.collect_fits(old(frame).top(), t.readings@)
                && *final(frame) == *old(frame),
            Err(Lack::Choice) => t.lacks_for_choice(old(frame).top()) && final(frame).top()
                == t.collected_at(old(frame).top()),
            Err(Lack::Layout) => t.lacks_for_layout(old(frame).top()) && final(frame).top()
                == t.collected_at(old(frame).top()),
        },
{
    if !collect_has_room(frame, t.round, t.readings) {
        return Err(Lack::Processes);
    }
    let ghost start = frame.top();
    let (mut procs, mut next): (FVec<'p, ProcInfo<'p>, ProcRecord>, FVec<'p, (u32, Packed)>) = gather(frame, t);
    let ghost rs = next@;
    let ghost ps = procs@;
    let ghost top = frame.top();
    if !filter_has_room(frame, procs.as_slice()) {
        assert(t.told(ps));
        assert(t.lacks_for_choice(start));
        return Err(Lack::Choice);
    }
    filter_with_children(frame, &mut procs, &t.round.prev, &mut next);
    sort_by_u32_key(procs.as_mut_slice());
    let ghost shown = procs@;
    proof {
        lemma_remaining_distinct(ps, t.round.prev@, shown);
        assert(t.shows(ps, shown));
    }
    if !layout_has_room(frame, procs.as_slice()) {
        assert(t.lacks_for_layout(start));
        return Err(Lack::Layout);
    }
    let tree: FSpan<'p, (Indent, u32)> = tree_layout(frame, procs.as_slice());
    let text: Vec<u8> = show(t, procs.as_slice(), tree.as_slice());
    sort_by_u32_key(next.as_mut_slice());
    proof {
        assert(t.keeps(ps, rs, next@));
        assert(frame.top() == t.laid_out_at(start, shown));
        assert(t.comes_to(text@, next@, start, frame.top()));
    }
    Ok((text, next.into_fspan()))
}

/// A round remembers every process that was read, under its number, and nobody
/// else.
pub proof fn law_everyone_is_remembered(
    t: &Tick<'_, '_>,
    ps: Seq<ProcInfo<'_>>,
    rs: Seq<(u32, Packed)>,
    next: Seq<(u32, Packed)>,
    i: int,
) -> (k: int)
    requires
        t.sound(),
        t.told(ps),
        t.keeps(ps, rs, next),
        0 <= i < t.readings@.len(),
    ensures
        next.len() == t.readings@.len(),
        0 <= k < next.len(),
        next[k].0 == t.readings@[i].pid,
        next[k].1.0 % 0x8000_0000 == rs[i].1.0 % 0x8000_0000,
        next[k].1.0 >= 0x8000_0000 <==> all_settled(
            coalesced(ps, ps.len()),
            t.round.prev@,
        )[i].age_visible >= 0x8000_0000,
        forall|a: int, b: int|
            0 <= a < b < next.len() ==> (#[trigger] next[a]).0 <= (#[trigger] next[b]).0,
{
    let q = coalesced(ps, ps.len());
    law_coalescing_keeps_people(ps, ps.len());
    let all = all_settled(q, t.round.prev@);
    let m = marked(rs, all);
    law_memory_marks_the_shown(rs, all, i);
    assert(t.round.is_remembered(t.readings@[i], rs[i]));
    m.to_multiset_ensures();
    next.to_multiset_ensures();
    assert(m.contains(m[i]));
    assert(next.to_multiset().count(m[i]) > 0);
    assert(next.contains(m[i]));
    assert forall|a: int, b: int| 0 <= a < b < next.len() implies (#[trigger] next[a]).0 <= (
    #[trigger] next[b]).0 by {
        assert(next[a].key() <= next[b].key());
    }
    choose|k: int| 0 <= k < next.len() && next[k] == m[i]
}

/// A process that is settled as shown stands among the shown ones, which come
/// in the order of their numbers; and each of these is one that was read.
pub proof fn law_round_shows_the_shown(
    t: &Tick<'_, '_>,
    ps: Seq<ProcInfo<'_>>,
    shown: Seq<ProcInfo<'_>>,
    i: int,
    k: int,
)
    requires
        t.sound(),
        t.shows(ps, shown),
        0 <= i < ps.len(),
    ensures
        ({
            let p = settled(coalesced(ps, ps.len()), t.round.prev@, i as u32);
            p.shown() ==> shown.contains(p) && p.pid == t.readings@[i].pid
        }),
        0 <= k < shown.len() ==> exists|m: int|
            0 <= m < t.readings@.len() && (#[trigger] t.readings@[m]).pid == shown[k].pid,
        forall|a: int, b: int|
            0 <= a < b < shown.len() ==> (#[trigger] shown[a]).pid <= (#[trigger] shown[b]).pid,
{
    let f = filtered(ps, t.round.prev@);
    law_filter_keeps_the_shown(ps, t.round.prev@, i);
    f.to_multiset_ensures();
    shown.to_multiset_ensures();
    let p = settled(coalesced(ps, ps.len()), t.round.prev@, i as u32);
    assert(t.round.is_process(t.readings@[i], (ProcInfo { gpu: None, ..ps[i] })));
    if p.shown() {
        assert(shown.to_multiset().count(p) > 0);
    }
    if 0 <= k < shown.len() {
        assert(shown.contains(shown[k]));
        assert(f.to_multiset().count(shown[k]) > 0);
        assert(f.contains(shown[k]));
        let j = choose|j: int| 0 <= j < f.len() && f[j] == shown[k];
        let m = choose|m: int|
            0 <= m < ps.len() && f[j] == #[trigger] settled(
                coalesced(ps, ps.len()),
                t.round.prev@,
                m as u32,
            );
        law_filter_keeps_the_shown(ps, t.round.prev@, m);
        assert(t.round.is_process(t.readings@[m], (ProcInfo { gpu: None, ..ps[m] })));
        assert(t.readings@[m].pid == shown[k].pid);
    }
    assert forall|a: int, b: int| 0 <= a < b < shown.len() implies (#[trigger] shown[a]).pid <= (
    #[trigger] shown[b]).pid by {
        assert(shown[a].key() <= shown[b].key());
    }
}

/// Every process that was read carries what the driver tells of its use of the
/// graphics processors: by its memory or, where only time is told, by that.
pub proof fn law_use_goes_to_its_process(t: &Tick<'_, '_>, ps: Seq<ProcInfo<'_>>, i: int, g: GpuProc)
    requires
        t.told(ps),
        0 <= i < ps.len(),
        value_of(t.gpu.procs@, t.readings@[i].pid) == Some(g),
    ensures
        t.round.platform == Platform::Linux && g.mem_mib > 0 ==> ps[i].gpu == Some(
            GpuUsage { sm_pct: g.sm_pct, mem_mib: g.mem_mib },
        ),
        t.round.platform == Platform::Mac && g.sm_pct > 0 ==> ps[i].gpu == Some(
            GpuUsage { sm_pct: g.sm_pct, mem_mib: 0 },
        ),
        t.round.platform == Platform::Linux && g.mem_mib == 0 ==> ps[i].gpu is None,
        t.round.platform == Platform::Mac && g.sm_pct == 0 ==> ps[i].gpu is None,
{
    assert(t.round.is_process(t.readings@[i], (ProcInfo { gpu: None, ..ps[i] })));
}

} // verus!
