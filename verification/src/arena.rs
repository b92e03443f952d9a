//! Bump arena with scoped frames and a build-then-freeze collection model.
//!
//! A [`Frame`] is the current end of a fixed range of `SIZE` byte offsets.
//! Every allocation takes the next suitably aligned run of offsets, and a
//! scope gives back all that was taken inside it. Handles own their elements
//! and know the run of offsets that was taken for them, so that what a build
//! leaves behind can be moved down and its scratch given back.

use crate::bytes::utf8_of;
use crate::layout::{
    align_up, bytes_of, lemma_align_up, lemma_align_up_bounded, lemma_bytes_add, lemma_bytes_mono,
    lemma_pow2_divides, round_up,
};
use crate::nest::{bucket_fill, bucket_of, bucket_starts, in_buckets, start_of, FNest};
use core::marker::PhantomData;
use vstd::arithmetic::power2::is_pow2;
use vstd::prelude::*;
use vstd::std_specs::iter::IteratorSpec;
use vstd::string::StringSliceAdditionalSpecFns;

verus! {

/// Bytes in the arena.
pub const SIZE: usize = 512 * 1024;

/// Strictest alignment that an allocation may ask for.
pub const MAX_ALIGN: usize = 16;

/// Name of an allocation, for whoever draws the arena's history.
#[derive(Clone, Copy)]
pub struct Label {
    name: &'static str,
}

impl Label {
    /// The name in bytes.
    pub closed spec fn bytes(&self) -> Seq<u8> {
        utf8_of(self.name)
    }

    /// The name in bytes.
    pub fn as_bytes(self) -> (r: &'static [u8])
        ensures
            r@ == self.bytes(),
    {
        self.name.as_bytes()
    }
}

impl From<&'static str> for Label {
    fn from(name: &'static str) -> (r: Label)
        ensures
            r.bytes() == utf8_of(name),
    {
        Label { name }
    }
}

impl vstd::std_specs::convert::FromSpecImpl<&'static str> for Label {
    open spec fn obeys_from_spec() -> bool {
        true
    }

    closed spec fn from_spec(name: &'static str) -> Label {
        Label { name }
    }
}

/// Whether `n` elements of type `T` can be taken when the arena is filled up
/// to `top`.
pub open spec fn fits<T>(top: nat, n: nat) -> bool {
    &&& vstd::layout::align_of::<T>() <= MAX_ALIGN
    &&& align_up(top, vstd::layout::align_of::<T>()) + bytes_of::<T>(n) <= SIZE
}

/// Whether `n` elements of type `T` can be laid down one by one. A run
/// without elements only has its start rounded up.
pub open spec fn run_fits<T>(top: nat, n: nat) -> bool {
    &&& n > 0 ==> vstd::layout::align_of::<T>() <= MAX_ALIGN
    &&& next_start::<T>(top) + bytes_of::<T>(n) <= SIZE
}

/// Where the next run of elements of type `T` starts.
pub open spec fn next_start<T>(top: nat) -> nat {
    align_up(top, vstd::layout::align_of::<T>())
}

/// Where the frame ends behind `n` buckets that hold `total` elements.
pub open spec fn nest_end<T>(top: nat, n: nat, total: nat) -> nat {
    next_start::<T>(next_start::<u32>(top) + bytes_of::<u32>(n + 1)) + bytes_of::<T>(total)
}

/// Whether `n` buckets with `total` elements can be taken. While they are
/// filled, one more word for each bucket is in use behind them.
pub open spec fn nest_fits<T>(top: nat, n: nat, total: nat) -> bool {
    &&& fits::<u32>(top, n + 1)
    &&& run_fits::<T>(next_start::<u32>(top) + bytes_of::<u32>(n + 1), total)
    &&& fits::<u32>(nest_end::<T>(top, n, total), n)
}

/// Runs do not overlap, and each starts where its elements may lie.
pub proof fn law_runs_are_apart<S, T>(top: nat, m: nat)
    requires
        vstd::layout::align_of::<S>() > 0,
        vstd::layout::align_of::<T>() > 0,
    ensures
        top <= next_start::<S>(top),
        next_start::<S>(top) as int % vstd::layout::align_of::<S>() as int == 0,
        next_start::<S>(top) + bytes_of::<S>(m) <= next_start::<T>(
            next_start::<S>(top) + bytes_of::<S>(m),
        ),
{
    lemma_align_up(top, vstd::layout::align_of::<S>());
    lemma_align_up(
        next_start::<S>(top) + bytes_of::<S>(m),
        vstd::layout::align_of::<T>(),
    );
}

/// A type of which all bytes zero is a value.
pub trait Zeroable: Sized {
    /// The value whose bytes are all zero.
    spec fn zero_value() -> Self;

    /// Makes that value.
    fn zeroed() -> (r: Self)
        ensures
            r == Self::zero_value(),
    ;
}

impl Zeroable for bool {
    open spec fn zero_value() -> bool {
        false
    }

    fn zeroed() -> (r: bool) {
        false
    }
}

impl Zeroable for u8 {
    open spec fn zero_value() -> u8 {
        0
    }

    fn zeroed() -> (r: u8) {
        0
    }
}

impl Zeroable for u32 {
    open spec fn zero_value() -> u32 {
        0
    }

    fn zeroed() -> (r: u32) {
        0
    }
}

impl Zeroable for u64 {
    open spec fn zero_value() -> u64 {
        0
    }

    fn zeroed() -> (r: u64) {
        0
    }
}

impl<T: Zeroable + Copy, const N: usize> Zeroable for [T; N] {
    open spec fn zero_value() -> [T; N] {
        vstd::array::spec_array_fill_for_copy_type::<T, N>(T::zero_value())
    }

    fn zeroed() -> (r: [T; N]) {
        [T::zeroed();N]
    }
}

/// Marks a value as belonging to the scope `'id`.
#[derive(Clone, Copy)]
pub struct Brand<'id> {
    tag: PhantomData<&'id mut &'id ()>,
}

/// The end of what is allocated so far; all allocation goes through it.
pub struct Frame<'id> {
    cursor: u32,
    brand: Brand<'id>,
}

/// One value in the arena.
pub struct FBox<'id, T> {
    start: u32,
    value: T,
    brand: Brand<'id>,
}

/// A run of elements, exactly as long as what was built.
pub struct FSpan<'id, T> {
    start: u32,
    data: Vec<T>,
    brand: Brand<'id>,
}

/// Bytes in the arena.
pub type FStr<'id> = FSpan<'id, u8>;

/// Elements being laid down one after the other by [`Frame::span`].
pub struct FBuilder<'a, 'id, T> {
    start: u32,
    data: Vec<T>,
    tag: PhantomData<&'a mut Frame<'id>>,
}

/// A run of up to `capacity` elements of which `len` are in use. Each element
/// takes the bytes of one `R`.
pub struct FVec<'id, T, R = T> {
    start: u32,
    slots: u32,
    data: Vec<T>,
    brand: Brand<'id>,
    record: PhantomData<R>,
}

/// Room for a known number of elements, taken before they are known.
pub struct FReserve<'a, 'id, T> {
    start: u32,
    slots: u32,
    data: Vec<T>,
    frame: &'a mut Frame<'id>,
}

impl<'id> Brand<'id> {
    fn new() -> Brand<'id> {
        Brand { tag: PhantomData }
    }
}

/// Runs `f` on an arena that is filled up to `at`: an outermost scope starts at
/// 0, and one that is opened while another is running starts where that one's
/// frame ends. What `f` takes is given back.
pub fn scope<R, F: for<'s> FnOnce(&mut Frame<'s>) -> R>(at: usize, f: F) -> (r: R)
    requires
        at <= SIZE,
        forall|frame: &mut Frame| frame.top() == at ==> #[trigger] call_requires(f, (frame,)),
    ensures
        exists|frame: &mut Frame| frame.top() == at && #[trigger] call_ensures(f, (frame,), r),
{
    let mut frame = Frame { cursor: at as u32, brand: Brand::new() };
    assert(frame.top() == at);
    let lent = &mut frame;
    assert(lent.top() == at);
    f(lent)
}

/// The byte range that is to be given back to the system when the arena lies
/// at address `base`, is filled up to `top`, and pages have `page` bytes: the
/// whole pages above the one that `top` falls into. `None` if there are none.
pub fn uncommit_tail(base: usize, top: u32, page: usize) -> (r: Option<(usize, usize)>)
    requires
        top <= SIZE,
        base + SIZE + page <= usize::MAX,
    ensures
        page == 0 ==> r is None,
        page > 0 ==> {
            let tail = align_up((base + top) as nat, page as nat);
            let spare = if base + SIZE >= tail { (base + SIZE - tail) / page as int * page } else { 0 };
            r == (if spare > 0 { Some((tail as usize, spare as usize)) } else { None })
        },
{
    if page == 0 {
        return None;
    }
    proof {
        lemma_align_up((base + top) as nat, page as nat);
    }
    let tail: usize = round_up(base + top as usize, page);
    let end: usize = base + SIZE;
    let rest: usize = if end >= tail { end - tail } else { 0 };
    proof {
        vstd::arithmetic::div_mod::lemma_fundamental_div_mod(rest as int, page as int);
        vstd::arithmetic::mul::lemma_mul_is_commutative(rest as int / page as int, page as int);
    }
    let len: usize = rest - rest % page;
    if len > 0 {
        Some((tail, len))
    } else {
        None
    }
}

/// Where `n` elements of type `T` end when the arena is filled up to `at`, if
/// they can be taken.
pub fn end_of_run<T>(at: usize, n: usize) -> (r: Option<usize>)
    requires
        at <= SIZE,
    ensures
        r == (if fits::<T>(at as nat, n as nat) {
            Some((next_start::<T>(at as nat) + bytes_of::<T>(n as nat)) as usize)
        } else {
            None
        }),
        r matches Some(end) ==> end <= SIZE,
{
    vstd::layout::layout_for_type_is_valid::<T>();
    let size: usize = core::mem::size_of::<T>();
    let align: usize = core::mem::align_of::<T>();
    if align > MAX_ALIGN {
        return None;
    }
    proof {
        lemma_align_up(at as nat, align as nat);
    }
    let start: usize = round_up(at, align);
    if start > SIZE {
        return None;
    }
    if size == 0 {
        assert(n * size == 0) by (nonlinear_arith)
            requires
                size == 0,
        ;
        return Some(start);
    }
    let room: usize = (SIZE - start) / size;
    proof {
        vstd::arithmetic::div_mod::lemma_fundamental_div_mod((SIZE - start) as int, size as int);
        let q = room as int;
        let s = size as int;
        let k = n as int;
        let m = (SIZE - start) as int % s;
        assert(s * q + m == SIZE - start);
        if k <= q {
            assert(k * s <= s * q) by (nonlinear_arith)
                requires
                    0 <= k <= q,
                    s > 0,
            ;
        } else {
            assert(k * s >= s * q + s) by (nonlinear_arith)
                requires
                    k >= q + 1,
                    s > 0,
            ;
        }
    }
    if n <= room {
        Some(start + n * size)
    } else {
        None
    }
}

/// Where `n` buckets with `total` elements of four bytes end when the arena is
/// filled up to `at`, if they can be taken.
pub fn end_of_nest(at: usize, n: u32, total: u32) -> (r: Option<usize>)
    requires
        at <= SIZE,
    ensures
        r == (if nest_fits::<u32>(at as nat, n as nat, total as nat) {
            Some(nest_end::<u32>(at as nat, n as nat, total as nat) as usize)
        } else {
            None
        }),
        r matches Some(end) ==> end <= SIZE,
{
    if n == u32::MAX {
        assert(!fits::<u32>(at as nat, (n + 1) as nat)) by {
            assert(bytes_of::<u32>((n + 1) as nat) > SIZE);
        }
        return None;
    }
    match end_of_run::<u32>(at, n as usize + 1) {
        None => None,
        Some(starts_end) => match end_of_run::<u32>(starts_end, total as usize) {
            None => {
                assert(vstd::layout::align_of::<u32>() <= MAX_ALIGN);
                None
            },
            Some(end) => match end_of_run::<u32>(end, n as usize) {
                None => None,
                Some(_) => Some(end),
            },
        },
    }
}

/// First address and length of an arena that lies at `base`.
pub fn extent(base: usize) -> (r: (usize, usize))
    ensures
        r == (base, SIZE),
{
    (base, SIZE)
}

impl<'id> Frame<'id> {
    /// How many bytes are taken.
    pub closed spec fn top(&self) -> nat {
        self.cursor as nat
    }

    #[verifier::type_invariant]
    spec fn inv(self) -> bool {
        self.cursor <= SIZE
    }

    /// The brand of this frame's scope.
    pub fn brand(&self) -> Brand<'id> {
        self.brand
    }

    /// How many bytes are taken.
    pub fn offset(&self) -> (r: usize)
        ensures
            r == self.top(),
            r <= SIZE,
    {
        proof {
            use_type_invariant(self);
        }
        self.cursor as usize
    }

    /// How many bytes are still free.
    pub fn remaining(&self) -> (r: usize)
        ensures
            r == SIZE - self.top(),
    {
        proof {
            use_type_invariant(self);
        }
        SIZE - self.cursor as usize
    }

    /// Runs `f` on a frame that starts where this one ends. Whatever `f`
    /// takes is given back.
    pub fn scope<R, F: for<'s> FnOnce(&mut Frame<'s>) -> R>(&mut self, f: F) -> (r: R)
        requires
            forall|frame: &mut Frame|
                frame.top() == old(self).top() ==> #[trigger] call_requires(f, (frame,)),
        ensures
            final(self).top() == old(self).top(),
            exists|frame: &mut Frame|
                frame.top() == old(self).top() && #[trigger] call_ensures(f, (frame,), r),
    {
        proof {
            use_type_invariant(&*self);
        }
        let mut sub = Frame { cursor: self.cursor, brand: Brand::new() };
        assert(sub.top() == self.top());
        let lent = &mut sub;
        assert(lent.top() == self.top());
        f(lent)
    }

    /// A frame that starts where this one ends. Whatever it takes is given
    /// back with it.
    pub(crate) fn sub<'s>(&'s mut self) -> (r: Frame<'s>)
        ensures
            r.top() == old(self).top(),
            *final(self) == *old(self),
    {
        proof {
            use_type_invariant(&*self);
        }
        Frame { cursor: self.cursor, brand: Brand::new() }
    }

    /// Takes `n` elements of type `T`; returns where they start.
    fn bump<T>(&mut self, n: usize) -> (r: u32)
        requires
            next_start::<T>(old(self).top()) + bytes_of::<T>(n as nat) <= SIZE,
        ensures
            r == next_start::<T>(old(self).top()),
            final(self).top() == r + bytes_of::<T>(n as nat),
    {
        vstd::layout::layout_for_type_is_valid::<T>();
        let size: usize = core::mem::size_of::<T>();
        let align: usize = core::mem::align_of::<T>();
        let start: usize = round_up(self.cursor as usize, align);
        let bytes: usize = n * size;
        self.cursor = (start + bytes) as u32;
        start as u32
    }

    /// Moves `value` into the arena.
    pub fn alloc_box<T>(&mut self, label: impl Into<Label>, value: T) -> (r: FBox<'id, T>)
        requires
            fits::<T>(old(self).top(), 1),
        ensures
            r@ == value,
            r.at() == next_start::<T>(old(self).top()),
            final(self).top() == r.at() + vstd::layout::size_of::<T>(),
    {
        let _ = label.into();
        proof {
            lemma_bytes_add::<T>(0, 1);
        }
        let start: u32 = self.bump::<T>(1);
        FBox { start, value, brand: self.brand }
    }

    /// Puts the zero value of `T` into the arena.
    pub fn alloc_zeroed<T: Zeroable>(&mut self, label: impl Into<Label>) -> (r: FBox<'id, T>)
        requires
            fits::<T>(old(self).top(), 1),
        ensures
            r@ == T::zero_value(),
            r.at() == next_start::<T>(old(self).top()),
            final(self).top() == r.at() + vstd::layout::size_of::<T>(),
    {
        self.alloc_box(label, T::zeroed())
    }

    /// Lays down the elements that `build` pushes, as one run.
    pub fn span<T, F: FnOnce(&mut FBuilder<'_, 'id, T>)>(
        &mut self,
        label: impl Into<Label>,
        build: F,
    ) -> (r: FSpan<'id, T>)
        requires
            vstd::layout::align_of::<T>() <= SIZE,
            forall|b: &mut FBuilder<'_, 'id, T>|
                b.wf() && b.at() == next_start::<T>(old(self).top()) && b@ == Seq::<T>::empty()
                    ==> #[trigger] call_requires(build, (b,)),
            forall|b: &mut FBuilder<'_, 'id, T>| #[trigger]
                call_ensures(build, (b,), ()) && b.wf() ==> final(b).wf() && final(b).at() == b.at(),
        ensures
            r.wf(),
            r.at() == next_start::<T>(old(self).top()),
            final(self).top() == r.end(),
            exists|b: &mut FBuilder<'_, 'id, T>|
                b.wf() && b.at() == r.at() && b@ == Seq::<T>::empty() && #[trigger] call_ensures(
                    build,
                    (b,),
                    (),
                ) && r@ == final(b)@,
    {
        proof {
            use_type_invariant(&*self);
        }
        let _ = label.into();
        let start: u32 = self.aligned::<T>();
        proof {
            lemma_bytes_add::<T>(0, 0);
        }
        let mut builder = FBuilder { start, data: Vec::new(), tag: PhantomData };
        assert(builder@ =~= Seq::<T>::empty());
        let lent = &mut builder;
        build(lent);
        let size: usize = core::mem::size_of::<T>();
        let count: usize = builder.data.len();
        self.cursor = (start as usize + count * size) as u32;
        FSpan { start, data: builder.data, brand: self.brand }
    }

    /// Lays down the bytes that `build` pushes.
    pub fn str<F: FnOnce(&mut FBuilder<'_, 'id, u8>)>(
        &mut self,
        label: impl Into<Label>,
        build: F,
    ) -> (r: FStr<'id>)
        requires
            vstd::layout::align_of::<u8>() <= SIZE,
            forall|b: &mut FBuilder<'_, 'id, u8>|
                b.wf() && b.at() == next_start::<u8>(old(self).top()) && b@ == Seq::<u8>::empty()
                    ==> #[trigger] call_requires(build, (b,)),
            forall|b: &mut FBuilder<'_, 'id, u8>| #[trigger]
                call_ensures(build, (b,), ()) && b.wf() ==> final(b).wf() && final(b).at() == b.at(),
        ensures
            r.wf(),
            r.at() == next_start::<u8>(old(self).top()),
            final(self).top() == r.end(),
            exists|b: &mut FBuilder<'_, 'id, u8>|
                b.wf() && b.at() == r.at() && b@ == Seq::<u8>::empty() && #[trigger] call_ensures(
                    build,
                    (b,),
                    (),
                ) && r@ == final(b)@,
    {
        self.span::<u8, F>(label, build)
    }

    /// Lays down everything that `iter` yields.
    pub fn collect<T, I: Iterator<Item = T>>(&mut self, label: impl Into<Label>, iter: I) -> (r: FSpan<
        'id,
        T,
    >)
        requires
            iter.obeys_prophetic_iter_laws(),
            iter.decrease() is Some,
            run_fits::<T>(old(self).top(), iter.remaining().len()),
            iter.remaining().len() <= u32::MAX,
        ensures
            r.wf(),
            r@ == iter.remaining(),
            r.at() == next_start::<T>(old(self).top()),
            final(self).top() == r.end(),
    {
        let _ = label.into();
        let mut data: Vec<T> = Vec::new();
        let mut rest = iter;
        loop
            invariant
                rest.obeys_prophetic_iter_laws(),
                rest.decrease() is Some,
                data@ + rest.remaining() == iter.remaining(),
            ensures
                data@ == iter.remaining(),
            decreases rest.decrease()->0,
        {
            match rest.next() {
                Some(item) => {
                    data.push(item);
                },
                None => {
                    break;
                },
            }
        }
        let start: u32 = self.bump::<T>(data.len());
        FSpan { start, data, brand: self.brand }
    }

    /// Lays down the elements of `data`.
    pub(crate) fn place<T>(&mut self, label: impl Into<Label>, data: Vec<T>) -> (r: FSpan<'id, T>)
        requires
            run_fits::<T>(old(self).top(), data@.len()),
            data@.len() <= u32::MAX,
        ensures
            r.wf(),
            r@ == data@,
            r.at() == next_start::<T>(old(self).top()),
            final(self).top() == r.end(),
    {
        let _ = label.into();
        let start: u32 = self.bump::<T>(data.len());
        FSpan { start, data, brand: self.brand }
    }

    /// Lays down `n` default values.
    pub fn zeros<T: Default>(&mut self, label: impl Into<Label>, n: usize) -> (r: FSpan<'id, T>)
        requires
            run_fits::<T>(old(self).top(), n as nat),
            n <= u32::MAX,
            call_requires(T::default, ()),
        ensures
            r.wf(),
            r@.len() == n,
            forall|i: int| 0 <= i < n ==> call_ensures(T::default, (), #[trigger] r@[i]),
            r.at() == next_start::<T>(old(self).top()),
            final(self).top() == r.end(),
    {
        let _ = label.into();
        let mut data: Vec<T> = Vec::new();
        for i in 0..n
            invariant
                data@.len() == i,
                call_requires(T::default, ()),
                forall|j: int| 0 <= j < i ==> call_ensures(T::default, (), #[trigger] data@[j]),
        {
            data.push(T::default());
        }
        let start: u32 = self.bump::<T>(n);
        FSpan { start, data, brand: self.brand }
    }

    /// A span without elements, at the frame's end.
    pub fn empty<T>(&self) -> (r: FSpan<'id, T>)
        ensures
            r.wf(),
            r@ == Seq::<T>::empty(),
            r.at() == self.top(),
    {
        proof {
            use_type_invariant(self);
            lemma_bytes_add::<T>(0, 0);
        }
        let r = FSpan { start: self.cursor, data: Vec::new(), brand: self.brand };
        assert(r@ =~= Seq::<T>::empty());
        r
    }

    /// Puts what `build` returns where `span` lies. The offsets of `span` and
    /// everything else that `build` took are given back.
    pub fn replace<T: Copy, F: FnOnce(&mut Frame<'id>, &FSpan<'id, T>) -> FSpan<'id, T>>(
        &mut self,
        label: impl Into<Label>,
        span: FSpan<'id, T>,
        build: F,
    ) -> (r: FSpan<'id, T>)
        requires
            span.wf(),
            span.end() == old(self).top(),
            forall|frame: &mut Frame<'id>|
                frame.top() == old(self).top() ==> #[trigger] call_requires(build, (frame, &span)),
            forall|frame: &mut Frame<'id>, out: FSpan<'id, T>|
                frame.top() == old(self).top() && #[trigger] call_ensures(build, (frame, &span), out)
                    ==> out.wf() && (out@.len() > 0 ==> out.at() >= span.at()),
        ensures
            r.wf(),
            r.at() == span.at(),
            final(self).top() == r.end(),
            exists|frame: &mut Frame<'id>, out: FSpan<'id, T>|
                frame.top() == old(self).top() && #[trigger] call_ensures(build, (frame, &span), out)
                    && r@ == out@,
    {
        let _ = label.into();
        let start: u32 = span.start;
        let out = build(&mut *self, &span);
        let size: usize = core::mem::size_of::<T>();
        proof {
            lemma_bytes_add::<T>(0, 0);
        }
        let count: usize = out.data.len();
        assert(start + bytes_of::<T>(count as nat) <= SIZE) by {
            lemma_bytes_mono::<T>(0, span@.len());
        }
        self.cursor = (start as usize + count * size) as u32;
        FSpan { start, data: out.data, brand: self.brand }
    }

    /// Puts the two spans that `build` returns where `span1` lies and, at the
    /// next offset that suits it, behind that. The offsets of both old spans
    /// and everything else that `build` took are given back.
    pub fn replace2<
        T1: Copy,
        T2: Copy,
        F: FnOnce(&mut Frame<'id>, &FSpan<'id, T1>, &FSpan<'id, T2>) -> (
            FSpan<'id, T1>,
            FSpan<'id, T2>,
        ),
    >(
        &mut self,
        label1: impl Into<Label>,
        span1: FSpan<'id, T1>,
        label2: impl Into<Label>,
        span2: FSpan<'id, T2>,
        build: F,
    ) -> (r: (FSpan<'id, T1>, FSpan<'id, T2>))
        requires
            span1.wf(),
            span2.wf(),
            span1.end() <= span2.at(),
            span2.end() == old(self).top(),
            vstd::layout::align_of::<T2>() <= SIZE,
            forall|frame: &mut Frame<'id>|
                frame.top() == old(self).top() ==> #[trigger] call_requires(
                    build,
                    (frame, &span1, &span2),
                ),
            forall|frame: &mut Frame<'id>, out: (FSpan<'id, T1>, FSpan<'id, T2>)|
                frame.top() == old(self).top() && #[trigger] call_ensures(
                    build,
                    (frame, &span1, &span2),
                    out,
                ) ==> {
                    &&& out.0.wf()
                    &&& out.1.wf()
                    &&& out.0@.len() > 0 ==> out.0.at() >= span1.at()
                    &&& out.1@.len() > 0 ==> out.1.at() >= next_start::<T2>(
                        span1.at() + bytes_of::<T1>(out.0@.len()),
                    )
                },
        ensures
            r.0.wf(),
            r.1.wf(),
            r.0.at() == span1.at(),
            r.1.at() == next_start::<T2>(r.0.end()),
            final(self).top() == r.1.end(),
            exists|frame: &mut Frame<'id>, out: (FSpan<'id, T1>, FSpan<'id, T2>)|
                frame.top() == old(self).top() && #[trigger] call_ensures(
                    build,
                    (frame, &span1, &span2),
                    out,
                ) && r.0@ == out.0@ && r.1@ == out.1@,
    {
        let _ = label1.into();
        let _ = label2.into();
        let start1: u32 = span1.start;
        let (out1, out2) = build(&mut *self, &span1, &span2);
        proof {
            lemma_bytes_add::<T1>(0, 0);
            lemma_bytes_add::<T2>(0, 0);
            lemma_bytes_mono::<T1>(0, span1@.len());
        }
        let size1: usize = core::mem::size_of::<T1>();
        let count1: usize = out1.data.len();
        assert(start1 + bytes_of::<T1>(count1 as nat) <= SIZE);
        self.cursor = (start1 as usize + count1 * size1) as u32;
        let start2: u32 = self.aligned::<T2>();
        let size2: usize = core::mem::size_of::<T2>();
        let count2: usize = out2.data.len();
        self.cursor = (start2 as usize + count2 * size2) as u32;
        (
            FSpan { start: start1, data: out1.data, brand: self.brand },
            FSpan { start: start2, data: out2.data, brand: self.brand },
        )
    }

    /// Keeps of all that `build` takes only the span that it returns, moved
    /// down to where the frame ended before.
    pub fn compact<T: Copy, F: FnOnce(&mut Frame<'id>) -> FSpan<'id, T>>(
        &mut self,
        label: impl Into<Label>,
        build: F,
    ) -> (r: FSpan<'id, T>)
        requires
            vstd::layout::align_of::<T>() <= SIZE,
            forall|frame: &mut Frame<'id>|
                frame.top() == old(self).top() ==> #[trigger] call_requires(build, (frame,)),
            forall|frame: &mut Frame<'id>, out: FSpan<'id, T>|
                frame.top() == old(self).top() && #[trigger] call_ensures(build, (frame,), out)
                    ==> out.wf() && (out@.len() > 0 ==> out.at() >= next_start::<T>(
                    old(self).top(),
                )),
        ensures
            r.wf(),
            r.at() == next_start::<T>(old(self).top()),
            final(self).top() == r.end(),
            exists|frame: &mut Frame<'id>, out: FSpan<'id, T>|
                frame.top() == old(self).top() && #[trigger] call_ensures(build, (frame,), out)
                    && r@ == out@,
    {
        let _ = label.into();
        let start: u32 = self.aligned::<T>();
        let out = build(&mut *self);
        proof {
            lemma_bytes_add::<T>(0, 0);
        }
        let size: usize = core::mem::size_of::<T>();
        let count: usize = out.data.len();
        self.cursor = (start as usize + count * size) as u32;
        FSpan { start, data: out.data, brand: self.brand }
    }

    /// Takes room for `capacity` elements, to be filled through the returned
    /// handle. The frame is out of reach until the handle is frozen or gone;
    /// if it goes unfrozen, its room is given back.
    pub fn reserve<'a, T>(&'a mut self, label: impl Into<Label>, capacity: u32) -> (r: FReserve<
        'a,
        'id,
        T,
    >)
        requires
            fits::<T>(old(self).top(), capacity as nat),
        ensures
            r.wf(),
            r@ == Seq::<T>::empty(),
            r.cap() == capacity,
            r.at() == next_start::<T>(old(self).top()),
            r.lender().top() == r.at(),
            *final(self) == *final(r.lender()),
    {
        let _ = label.into();
        let start: u32 = self.bump::<T>(capacity as usize);
        proof {
            lemma_bytes_add::<T>(0, 0);
        }
        self.cursor = start;
        let r = FReserve { start, slots: capacity, data: Vec::new(), frame: self };
        assert(r@ =~= Seq::<T>::empty());
        r
    }

    /// Takes room for `capacity` elements that come and go.
    pub fn vec<T>(&mut self, label: impl Into<Label>, capacity: u32) -> (r: FVec<'id, T>)
        requires
            fits::<T>(old(self).top(), capacity as nat),
        ensures
            r.wf(),
            r@ == Seq::<T>::empty(),
            r.cap() == capacity,
            r.at() == next_start::<T>(old(self).top()),
            final(self).top() == r.at() + bytes_of::<T>(capacity as nat),
    {
        self.vec_as::<T, T>(label, capacity)
    }

    /// Takes room for `capacity` elements that come and go, each of which takes
    /// the bytes of one `R`. It is for elements that own memory elsewhere: of
    /// these only a record lies in the arena.
    pub fn vec_as<T, R>(&mut self, label: impl Into<Label>, capacity: u32) -> (r: FVec<'id, T, R>)
        requires
            fits::<R>(old(self).top(), capacity as nat),
        ensures
            r.wf(),
            r@ == Seq::<T>::empty(),
            r.cap() == capacity,
            r.at() == next_start::<R>(old(self).top()),
            final(self).top() == r.at() + bytes_of::<R>(capacity as nat),
    {
        let _ = label.into();
        let start: u32 = self.bump::<R>(capacity as usize);
        let r = FVec {
            start,
            slots: capacity,
            data: Vec::new(),
            brand: self.brand,
            record: PhantomData,
        };
        assert(r@ =~= Seq::<T>::empty());
        r
    }

    /// Groups the items of `build` into `n_buckets` buckets. `build` is called
    /// twice: once to count, and once to fill.
    pub fn nest<T: Copy + Default, I: Iterator<Item = (u32, T)>, F: Fn() -> I>(
        &mut self,
        label: impl Into<Label>,
        n_buckets: u32,
        build: F,
    ) -> (r: FNest<'id, T>)
        requires
            call_requires(T::default, ()),
            call_requires(build, ()),
            forall|items: I| #[trigger]
                call_ensures(build, (), items) ==> {
                    &&& items.obeys_prophetic_iter_laws()
                    &&& items.decrease() is Some
                    &&& in_buckets(items.remaining(), n_buckets as nat)
                    &&& items.remaining().len() <= u32::MAX
                    &&& nest_fits::<T>(old(self).top(), n_buckets as nat, items.remaining().len())
                },
            forall|first: I, second: I, b: int|
                #![trigger call_ensures(build, (), first), call_ensures(build, (), second), bucket_of(second.remaining(), b)]
                0 <= b < n_buckets && call_ensures(build, (), first) && call_ensures(
                    build,
                    (),
                    second,
                ) ==> bucket_of(first.remaining(), b).len() == bucket_of(second.remaining(), b).len(),
        ensures
            r.wf(),
            r@.len() == n_buckets,
            final(self).top() == nest_end::<T>(
                old(self).top(),
                n_buckets as nat,
                r.elements().len(),
            ),
            exists|items: I| #[trigger]
                call_ensures(build, (), items) && forall|b: int|
                    0 <= b < n_buckets ==> #[trigger] r@[b] == bucket_of(items.remaining(), b),
    {
        let label: Label = label.into();
        let first = build();
        let ghost counted = first.remaining();
        proof {
            broadcast use vstd::layout::layout_of_primitives;

            assert(bytes_of::<u32>((n_buckets + 1) as nat) == (n_buckets + 1) * 4);
        }
        let starts: Vec<u32> = bucket_starts(first, n_buckets);
        let total: usize = starts[n_buckets as usize] as usize;
        proof {
            crate::nest::lemma_start_of_total(counted, n_buckets as nat);
        }
        let offsets_at: u32 = self.bump::<u32>(n_buckets as usize + 1);
        let offsets: FSpan<'id, u32> = FSpan { start: offsets_at, data: starts, brand: self.brand };
        let mut data: FSpan<'id, T> = self.zeros(label, total);
        let ghost after = self.top();
        let cursor: u32 = self.cursor;
        let _ = self.bump::<u32>(n_buckets as usize);
        let second = build();
        let ghost filled = second.remaining();
        proof {
            assert forall|b: int| 0 <= b < n_buckets implies #[trigger] offsets.data@[b + 1]
                == offsets.data@[b] + bucket_of(filled, b).len() by {
                assert(start_of(counted, (b + 1) as nat) == start_of(counted, b as nat) + bucket_of(
                    counted,
                    b,
                ).len());
                assert(bucket_of(counted, b).len() == bucket_of(filled, b).len());
            }
        }
        bucket_fill(second, &offsets.data, &mut data.data);
        self.cursor = cursor;
        proof {
            assert forall|a: int, b: int| 0 <= a <= b <= n_buckets implies #[trigger] offsets@[a]
                <= #[trigger] offsets@[b] by {
                crate::nest::lemma_start_of_mono(counted, a as nat, b as nat);
            }
        }
        let r = FNest::from_parts(offsets, data);
        assert forall|b: int| 0 <= b < n_buckets implies #[trigger] r@[b] == bucket_of(filled, b) by {
            assert(bucket_of(filled, b) == data.data@.subrange(
                offsets.data@[b] as int,
                offsets.data@[b + 1] as int,
            ));
        }
        r
    }

    /// Where the next element of type `T` would start.
    fn aligned<T>(&self) -> (r: u32)
        requires
            vstd::layout::align_of::<T>() <= SIZE,
        ensures
            r == next_start::<T>(self.top()),
            r <= SIZE,
    {
        proof {
            use_type_invariant(self);
        }
        vstd::layout::layout_for_type_is_valid::<T>();
        let align: usize = core::mem::align_of::<T>();
        proof {
            assert(is_pow2(SIZE as int)) by {
                reveal_with_fuel(is_pow2, 20);
            }
            lemma_pow2_divides(align as int, SIZE as int);
            lemma_align_up_bounded(self.top(), align as nat, SIZE as nat);
        }
        round_up(self.cursor as usize, align) as u32
    }
}

impl<'id, T> FBox<'id, T> {
    /// Where the value lies.
    pub closed spec fn at(&self) -> nat {
        self.start as nat
    }

    /// The value.
    pub closed spec fn view(&self) -> T {
        self.value
    }
}

impl<'id, T> core::ops::Deref for FBox<'id, T> {
    type Target = T;

    fn deref(&self) -> (r: &T)
        ensures
            *r == self@,
    {
        &self.value
    }
}

impl<'id, T> core::ops::DerefMut for FBox<'id, T> {
    fn deref_mut(&mut self) -> (r: &mut T)
        ensures
            *r == old(self)@,
            final(self)@ == *final(r),
            final(self).at() == old(self).at(),
    {
        &mut self.value
    }
}

impl<'a, 'id, T> FBuilder<'a, 'id, T> {
    /// Where the first element lies.
    pub closed spec fn at(&self) -> nat {
        self.start as nat
    }

    /// The elements so far.
    pub closed spec fn view(&self) -> Seq<T> {
        self.data@
    }

    /// Where the elements end.
    pub open spec fn end(&self) -> nat {
        self.at() + bytes_of::<T>(self@.len())
    }

    /// The elements lie inside the arena.
    pub open spec fn wf(&self) -> bool {
        &&& self.end() <= SIZE
        &&& self@.len() <= u32::MAX
    }

    /// How many elements there are.
    pub fn len(&self) -> (r: usize)
        ensures
            r == self@.len(),
    {
        self.data.len()
    }

    /// Whether there is none.
    pub fn is_empty(&self) -> (r: bool)
        ensures
            r == (self@.len() == 0),
    {
        self.data.len() == 0
    }

    /// Adds `value` behind the others.
    pub fn push(&mut self, value: T)
        requires
            old(self).end() + vstd::layout::size_of::<T>() <= SIZE,
            old(self)@.len() < u32::MAX,
        ensures
            final(self)@ == old(self)@.push(value),
            final(self).at() == old(self).at(),
            final(self).wf(),
    {
        self.data.push(value);
        proof {
            lemma_bytes_add::<T>(old(self)@.len(), 1);
        }
    }

    /// Adds a copy of `src` behind the others.
    pub fn extend_from_slice(&mut self, src: &[T]) where T: Copy
        requires
            old(self).end() + bytes_of::<T>(src@.len()) <= SIZE,
            old(self)@.len() + src@.len() <= u32::MAX,
        ensures
            final(self)@ == old(self)@ + src@,
            final(self).at() == old(self).at(),
            final(self).wf(),
    {
        proof {
            lemma_bytes_add::<T>(old(self)@.len(), src@.len());
        }
        let ghost before = self@;
        for i in 0..src.len()
            invariant
                self@ == before + src@.take(i as int),
                self.at() == old(self).at(),
                before == old(self)@,
                old(self).end() + bytes_of::<T>(src@.len()) <= SIZE,
                before.len() + src@.len() <= u32::MAX,
        {
            proof {
                lemma_bytes_add::<T>(before.len(), src@.len());
                lemma_bytes_mono::<T>(self@.len() + 1, before.len() + src@.len());
                lemma_bytes_add::<T>(self@.len(), 1);
            }
            self.push(src[i]);
        }
    }

    /// Takes the last element away, if there is one.
    pub fn pop(&mut self)
        ensures
            final(self)@ == (if old(self)@.len() == 0 { old(self)@ } else { old(self)@.drop_last() }),
            final(self).at() == old(self).at(),
            old(self).wf() ==> final(self).wf(),
    {
        let _ = self.data.pop();
        proof {
            if old(self)@.len() > 0 {
                lemma_bytes_mono::<T>((old(self)@.len() - 1) as nat, old(self)@.len());
            }
        }
    }
}

impl<'id, T> FSpan<'id, T> {
    /// Where the first element lies.
    pub closed spec fn at(&self) -> nat {
        self.start as nat
    }

    /// The elements.
    pub closed spec fn view(&self) -> Seq<T> {
        self.data@
    }

    /// Where the elements end.
    pub open spec fn end(&self) -> nat {
        self.at() + bytes_of::<T>(self@.len())
    }

    /// The elements lie inside the arena.
    pub open spec fn wf(&self) -> bool {
        &&& self.end() <= SIZE
        &&& self@.len() <= u32::MAX
    }

    /// Where the first element lies.
    pub fn offset(&self) -> (r: u32)
        ensures
            r == self.at(),
    {
        self.start
    }

    /// How many elements there are.
    pub fn len(&self) -> (r: usize)
        ensures
            r == self@.len(),
    {
        self.data.len()
    }

    /// Whether there is none.
    pub fn is_empty(&self) -> (r: bool)
        ensures
            r == (self@.len() == 0),
    {
        self.data.len() == 0
    }

    /// The elements.
    pub fn as_slice(&self) -> (r: &[T])
        ensures
            r@ == self@,
    {
        self.data.as_slice()
    }

    /// The elements, to be changed in place.
    pub fn as_mut_slice(&mut self) -> (r: &mut [T])
        ensures
            r@ == old(self)@,
            final(self)@ == final(r)@,
            final(self).at() == old(self).at(),
    {
        self.data.as_mut_slice()
    }
}

/// The elements that a pass over `before` leaves when it may change each one
/// and says of each whether it stays.
pub open spec fn kept<T>(outcomes: Seq<(T, bool)>) -> Seq<T>
    decreases outcomes.len(),
{
    if outcomes.len() == 0 {
        Seq::empty()
    } else {
        let rest = kept(outcomes.drop_last());
        if outcomes.last().1 {
            rest.push(outcomes.last().0)
        } else {
            rest
        }
    }
}

/// Whether `i` is a position in `s`.
pub open spec fn has_index<A>(s: Seq<A>, i: int) -> bool {
    0 <= i < s.len()
}

proof fn lemma_kept_len<T>(outcomes: Seq<(T, bool)>)
    ensures
        kept(outcomes).len() <= outcomes.len(),
    decreases outcomes.len(),
{
    if outcomes.len() > 0 {
        lemma_kept_len(outcomes.drop_last());
    }
}

impl<'a, 'id, T> FReserve<'a, 'id, T> {
    /// Where the first element lies.
    pub closed spec fn at(&self) -> nat {
        self.start as nat
    }

    /// The elements so far.
    pub closed spec fn view(&self) -> Seq<T> {
        self.data@
    }

    /// How many elements there is room for.
    pub closed spec fn cap(&self) -> nat {
        self.slots as nat
    }

    /// The frame that the room was taken from.
    pub closed spec fn lender(self) -> &'a mut Frame<'id> {
        self.frame
    }

    /// The elements lie inside the room, and the room inside the arena.
    pub open spec fn wf(&self) -> bool {
        &&& self@.len() <= self.cap() <= u32::MAX
        &&& self.at() + bytes_of::<T>(self.cap()) <= SIZE
    }

    /// How many elements there are.
    pub fn len(&self) -> (r: usize)
        ensures
            r == self@.len(),
    {
        self.data.len()
    }

    /// How many elements there is room for.
    pub fn capacity(&self) -> (r: usize)
        ensures
            r == self.cap(),
    {
        self.slots as usize
    }

    /// Whether there is no element.
    pub fn is_empty(&self) -> (r: bool)
        ensures
            r == (self@.len() == 0),
    {
        self.data.len() == 0
    }

    /// Whether there is no more room.
    pub fn is_full(&self) -> (r: bool)
        ensures
            r == (self@.len() == self.cap()),
    {
        self.data.len() == self.slots as usize
    }

    /// Adds `value`, or hands it back if there is no more room.
    pub fn push(&mut self, value: T) -> (r: Result<(), T>)
        requires
            old(self).wf(),
        ensures
            final(self).wf(),
            old(self)@.len() < old(self).cap() ==> r == Ok::<(), T>(()) && final(self)@
                == old(self)@.push(value),
            old(self)@.len() == old(self).cap() ==> r == Err::<(), T>(value) && final(self)@
                == old(self)@,
            final(self).at() == old(self).at(),
            final(self).cap() == old(self).cap(),
            final(self).lender() == old(self).lender(),
    {
        if self.data.len() >= self.slots as usize {
            return Err(value);
        }
        self.data.push(value);
        Ok(())
    }

    /// Adds a copy of `src`.
    pub fn extend_from_slice(&mut self, src: &[T]) where T: Copy
        requires
            old(self).wf(),
            old(self)@.len() + src@.len() <= old(self).cap(),
        ensures
            final(self).wf(),
            final(self)@ == old(self)@ + src@,
            final(self).at() == old(self).at(),
            final(self).cap() == old(self).cap(),
            final(self).lender() == old(self).lender(),
    {
        let ghost before = self@;
        for i in 0..src.len()
            invariant
                self@ == before + src@.take(i as int),
                self.at() == old(self).at(),
                self.cap() == old(self).cap(),
                self.lender() == old(self).lender(),
        {
            self.data.push(src[i]);
            assert(self@ =~= before + src@.take(i + 1));
        }
    }

    /// Drops the elements from `new_len` on.
    pub fn truncate(&mut self, new_len: u32)
        requires
            old(self).wf(),
        ensures
            final(self).wf(),
            final(self)@ == (if new_len < old(self)@.len() {
                old(self)@.take(new_len as int)
            } else {
                old(self)@
            }),
            final(self).at() == old(self).at(),
            final(self).cap() == old(self).cap(),
            final(self).lender() == old(self).lender(),
    {
        self.data.truncate(new_len as usize);
    }

    /// Runs `f` on a frame that starts behind the reserved room.
    pub fn scope<R, F: for<'s> FnOnce(&mut Frame<'s>) -> R>(&mut self, f: F) -> (r: R)
        requires
            old(self).wf(),
            forall|frame: &mut Frame|
                frame.top() == old(self).at() + bytes_of::<T>(old(self).cap())
                    ==> #[trigger] call_requires(f, (frame,)),
        ensures
            *final(self) == *old(self),
            exists|frame: &mut Frame|
                frame.top() == old(self).at() + bytes_of::<T>(old(self).cap())
                    && #[trigger] call_ensures(f, (frame,), r),
    {
        let size: usize = core::mem::size_of::<T>();
        let end: u32 = (self.start as usize + self.slots as usize * size) as u32;
        let mut sub = Frame { cursor: end, brand: Brand::new() };
        assert(sub.top() == self.at() + bytes_of::<T>(self.cap()));
        let lent = &mut sub;
        assert(lent.top() == self.at() + bytes_of::<T>(self.cap()));
        f(lent)
    }

    /// Ends the filling. The room behind the last element is given back.
    pub fn freeze(self) -> (r: FSpan<'id, T>)
        requires
            self.wf(),
        ensures
            r.wf(),
            r@ == self@,
            r.at() == self.at(),
            final(self.lender()).top() == r.end(),
    {
        let size: usize = core::mem::size_of::<T>();
        let count: usize = self.data.len();
        proof {
            lemma_bytes_mono::<T>(self@.len(), self.cap());
        }
        let FReserve { start, slots: _, data, frame } = self;
        frame.cursor = (start as usize + count * size) as u32;
        FSpan { start, data, brand: frame.brand }
    }
}

impl<'id, T, R> FVec<'id, T, R> {
    /// Where the first element lies.
    pub closed spec fn at(&self) -> nat {
        self.start as nat
    }

    /// The elements.
    pub closed spec fn view(&self) -> Seq<T> {
        self.data@
    }

    /// How many elements there is room for.
    pub closed spec fn cap(&self) -> nat {
        self.slots as nat
    }

    /// The elements lie inside the room, and the room inside the arena.
    pub open spec fn wf(&self) -> bool {
        &&& self@.len() <= self.cap() <= u32::MAX
        &&& self.at() + bytes_of::<R>(self.cap()) <= SIZE
    }

    /// Same room as `other`.
    pub open spec fn same_room(&self, other: &FVec<'id, T, R>) -> bool {
        &&& self.at() == other.at()
        &&& self.cap() == other.cap()
    }

    /// How many elements there are.
    pub fn len(&self) -> (r: usize)
        ensures
            r == self@.len(),
    {
        self.data.len()
    }

    /// How many elements there is room for.
    pub fn capacity(&self) -> (r: usize)
        ensures
            r == self.cap(),
    {
        self.slots as usize
    }

    /// Whether there is no element.
    pub fn is_empty(&self) -> (r: bool)
        ensures
            r == (self@.len() == 0),
    {
        self.data.len() == 0
    }

    /// Whether there is no more room.
    pub fn is_full(&self) -> (r: bool)
        ensures
            r == (self@.len() == self.cap()),
    {
        self.data.len() == self.slots as usize
    }

    /// Adds `value`, or hands it back if there is no more room.
    pub fn push(&mut self, value: T) -> (r: Result<(), T>)
        requires
            old(self).wf(),
        ensures
            final(self).wf(),
            final(self).same_room(old(self)),
            old(self)@.len() < old(self).cap() ==> r == Ok::<(), T>(()) && final(self)@
                == old(self)@.push(value),
            old(self)@.len() == old(self).cap() ==> r == Err::<(), T>(value) && final(self)@
                == old(self)@,
    {
        if self.data.len() >= self.slots as usize {
            return Err(value);
        }
        self.data.push(value);
        Ok(())
    }

    /// Takes the last element out.
    pub fn pop(&mut self) -> (r: Option<T>)
        requires
            old(self).wf(),
        ensures
            final(self).wf(),
            final(self).same_room(old(self)),
            old(self)@.len() == 0 ==> r is None && final(self)@ == old(self)@,
            old(self)@.len() > 0 ==> r == Some(old(self)@.last()) && final(self)@
                == old(self)@.drop_last(),
    {
        self.data.pop()
    }

    /// Shows each element in turn to `keep`, which may change it, and drops
    /// those of which it says `false`.
    pub fn retain_in_place<F: FnMut(&mut T) -> bool>(&mut self, keep: F)
        requires
            old(self).wf(),
            forall|x: &mut T| old(self)@.contains(*x) ==> #[trigger] call_requires(keep, (x,)),
        ensures
            final(self).wf(),
            final(self).same_room(old(self)),
            exists|outcomes: Seq<(T, bool)>|
                #![trigger kept(outcomes)]
                outcomes.len() == old(self)@.len() && final(self)@ == kept(outcomes) && forall|i: int|
                    #[trigger] has_index(outcomes, i) ==> exists|x: &mut T| #[trigger]
                        call_ensures(keep, (x,), outcomes[i].1) && *x == old(self)@[i] && *final(x)
                            == outcomes[i].0,
    {
        let mut keep = keep;
        let ghost pass = keep;
        let mut from: Vec<T> = Vec::new();
        let ghost mut outcomes: Seq<(T, bool)> = Seq::empty();
        let ghost before = self@;
        core::mem::swap(&mut self.data, &mut from);
        assert(self@ =~= kept(outcomes));
        for item in items: from
            invariant
                self.same_room(old(self)),
                items.seq() == before,
                before == old(self)@,
                keep == pass,
                outcomes.len() == items.index(),
                self@ == kept(outcomes),
                forall|x: &mut T| before.contains(*x) ==> #[trigger] call_requires(pass, (x,)),
                forall|i: int|
                    #[trigger] has_index(outcomes, i) ==> exists|x: &mut T| #[trigger]
                        call_ensures(pass, (x,), outcomes[i].1) && *x == before[i] && *final(x)
                            == outcomes[i].0,
        {
            assert(before.contains(item));
            let ghost was = outcomes;
            let mut item = item;
            let ghost was_item = item;
            let stays: bool = keep(&mut item);
            assert(exists|x: &mut T| #[trigger]
                call_ensures(pass, (x,), stays) && *x == was_item && *final(x) == item);
            proof {
                outcomes = outcomes.push((item, stays));
                assert(outcomes.drop_last() =~= was);
                assert forall|i: int| has_index(outcomes, i) implies exists|x: &mut T| #[trigger]
                    call_ensures(pass, (x,), outcomes[i].1) && *x == before[i] && *final(x)
                        == outcomes[i].0 by {
                    if i < was.len() {
                        assert(has_index(was, i));
                        assert(outcomes[i] == was[i]);
                        let x = choose|x: &mut T| #[trigger]
                            call_ensures(pass, (x,), was[i].1) && *x == before[i] && *final(x) == was[i].0;
                        assert(call_ensures(pass, (x,), outcomes[i].1));
                    } else {
                        assert(before[i] == was_item);
                        assert(outcomes[i] == (item, stays));
                        let x = choose|x: &mut T| #[trigger]
                            call_ensures(pass, (x,), stays) && *x == was_item && *final(x) == item;
                        assert(call_ensures(pass, (x,), outcomes[i].1));
                    }
                }
            }
            if stays {
                self.data.push(item);
            }
        }
        proof {
            lemma_kept_len(outcomes);
        }
    }

    /// Drops all elements.
    pub fn clear(&mut self)
        requires
            old(self).wf(),
        ensures
            final(self).wf(),
            final(self).same_room(old(self)),
            final(self)@ == Seq::<T>::empty(),
    {
        self.truncate(0);
        assert(self@ =~= Seq::<T>::empty());
    }

    /// Drops the elements from `new_len` on.
    pub fn truncate(&mut self, new_len: u32)
        requires
            old(self).wf(),
        ensures
            final(self).wf(),
            final(self).same_room(old(self)),
            final(self)@ == (if new_len < old(self)@.len() {
                old(self)@.take(new_len as int)
            } else {
                old(self)@
            }),
    {
        self.data.truncate(new_len as usize);
    }

    /// Adds a copy of `src`.
    pub fn extend_from_slice(&mut self, src: &[T]) where T: Copy
        requires
            old(self).wf(),
            old(self)@.len() + src@.len() <= old(self).cap(),
        ensures
            final(self).wf(),
            final(self).same_room(old(self)),
            final(self)@ == old(self)@ + src@,
    {
        let ghost before = self@;
        for i in 0..src.len()
            invariant
                self@ == before + src@.take(i as int),
                self.same_room(old(self)),
        {
            self.data.push(src[i]);
            assert(self@ =~= before + src@.take(i + 1));
        }
    }

    /// Adds everything that `iter` yields.
    pub fn extend<I: Iterator<Item = T>>(&mut self, iter: I)
        requires
            old(self).wf(),
            iter.obeys_prophetic_iter_laws(),
            iter.decrease() is Some,
            old(self)@.len() + iter.remaining().len() <= old(self).cap(),
        ensures
            final(self).wf(),
            final(self).same_room(old(self)),
            final(self)@ == old(self)@ + iter.remaining(),
    {
        let ghost before = self@;
        let mut rest = iter;
        loop
            invariant
                self.same_room(old(self)),
                rest.obeys_prophetic_iter_laws(),
                rest.decrease() is Some,
                self@ + rest.remaining() == before + iter.remaining(),
            ensures
                self.same_room(old(self)),
                self@ == before + iter.remaining(),
            decreases rest.decrease()->0,
        {
            let ghost so_far = self@;
            let ghost tail = rest.remaining();
            match rest.next() {
                Some(item) => {
                    self.data.push(item);
                    assert(self@ + rest.remaining() =~= so_far + tail);
                },
                None => {
                    assert(so_far + tail =~= so_far);
                    break;
                },
            }
        }
    }

    /// The elements.
    pub fn as_slice(&self) -> (r: &[T])
        ensures
            r@ == self@,
    {
        self.data.as_slice()
    }

    /// The elements, to be changed in place.
    pub fn as_mut_slice(&mut self) -> (r: &mut [T])
        ensures
            r@ == old(self)@,
            final(self)@ == final(r)@,
            final(self).same_room(old(self)),
    {
        self.data.as_mut_slice()
    }

}

impl<'id, T> FVec<'id, T> {
    /// The elements as a span. The room behind them stays taken.
    pub fn into_fspan(self) -> (r: FSpan<'id, T>)
        requires
            self.wf(),
        ensures
            r.wf(),
            r@ == self@,
            r.at() == self.at(),
    {
        proof {
            lemma_bytes_mono::<T>(self@.len(), self.cap());
        }
        FSpan { start: self.start, data: self.data, brand: self.brand }
    }
}

impl<'id> FVec<'id, u8> {
    /// Fills the whole room with zero bytes and lends it out.
    pub fn fill_zeroed(&mut self) -> (r: &mut [u8])
        requires
            old(self).wf(),
        ensures
            r@ == Seq::new(old(self).cap(), |i: int| 0u8),
            final(self)@ == final(r)@,
            final(self).same_room(old(self)),
    {
        self.data.clear();
        self.data.resize(self.slots as usize, 0);
        assert(self.data@ =~= Seq::new(old(self).cap(), |i: int| 0u8));
        self.data.as_mut_slice()
    }
}

impl<'id, T, R> core::ops::Deref for FVec<'id, T, R> {
    type Target = [T];

    fn deref(&self) -> (r: &[T])
        ensures
            r@ == self@,
    {
        self.as_slice()
    }
}

impl<'id, T, R> core::ops::DerefMut for FVec<'id, T, R> {
    fn deref_mut(&mut self) -> (r: &mut [T])
        ensures
            r@ == old(self)@,
            final(self)@ == final(r)@,
            final(self).same_room(old(self)),
    {
        self.as_mut_slice()
    }
}

impl<'id, T> core::ops::Deref for FSpan<'id, T> {
    type Target = [T];

    fn deref(&self) -> (r: &[T])
        ensures
            r@ == self@,
    {
        self.as_slice()
    }
}

impl<'id, T> core::ops::DerefMut for FSpan<'id, T> {
    fn deref_mut(&mut self) -> (r: &mut [T])
        ensures
            r@ == old(self)@,
            final(self)@ == final(r)@,
            final(self).at() == old(self).at(),
    {
        self.as_mut_slice()
    }
}

impl<'id, T> FSpan<'id, T> {
    /// The elements as a full vector.
    pub fn into_fvec(self) -> (r: FVec<'id, T>)
        requires
            self.wf(),
        ensures
            r.wf(),
            r@ == self@,
            r.at() == self.at(),
            r.cap() == self@.len(),
    {
        let slots: u32 = self.data.len() as u32;
        FVec { start: self.start, slots, data: self.data, brand: self.brand, record: PhantomData }
    }

    /// The elements alone.
    pub fn leak(self) -> (r: Vec<T>) where T: Copy
        ensures
            r@ == self@,
    {
        self.data
    }

    /// Start and length packed into one word.
    pub fn into_small(self) -> (r: FSmall<'id, T>)
        requires
            self.at() <= MAX_SMALL_OFFSET,
            self@.len() <= MAX_SMALL_LEN,
        ensures
            r.wf(),
            r@ == self@,
            r.at() == self.at(),
    {
        let count: u32 = self.data.len() as u32;
        let start: u32 = self.start;
        assert((start << 12 | count) & 0xfff == count && (start << 12 | count) >> 12 == start)
            by (bit_vector)
            requires
                start <= 0xf_ffff,
                count <= 0xfff,
        ;
        FSmall { packed: (start << 12) | count, data: self.data, brand: self.brand }
    }
}

impl<'id, T> FSpan<'id, T> {
    /// Start and length packed into one word, where elements that the length
    /// cannot count are dropped.
    pub fn into_small_lossy(self) -> (r: FSmall<'id, T>)
        requires
            self.at() <= MAX_SMALL_OFFSET,
        ensures
            r.wf(),
            r@ == (if self@.len() <= MAX_SMALL_LEN {
                self@
            } else {
                self@.take(MAX_SMALL_LEN as int)
            }),
            r.at() == self.at(),
    {
        let mut span = self;
        span.data.truncate(MAX_SMALL_LEN as usize);
        span.into_small()
    }
}

/// Largest start that [`FSmall`] can hold.
pub const MAX_SMALL_OFFSET: u32 = 0xf_ffff;

/// Largest length that [`FSmall`] can hold.
pub const MAX_SMALL_LEN: u32 = 0xfff;

/// A short span whose start and length share one word.
pub struct FSmall<'id, T> {
    packed: u32,
    data: Vec<T>,
    brand: Brand<'id>,
}

/// Short bytes.
pub type FSmallStr<'id> = FSmall<'id, u8>;

impl<'id, T> FSmall<'id, T> {
    /// Where the first element lies.
    pub closed spec fn at(&self) -> nat {
        (self.packed >> 12) as nat
    }

    /// The elements.
    pub closed spec fn view(&self) -> Seq<T> {
        self.data@
    }

    /// The packed length is the number of elements.
    pub closed spec fn wf(&self) -> bool {
        self.data@.len() == self.packed & 0xfff
    }

    /// How many elements there are.
    pub fn len(&self) -> (r: usize)
        requires
            self.wf(),
        ensures
            r == self@.len(),
    {
        (self.packed & 0xfff) as usize
    }

    /// Whether there is none.
    pub fn is_empty(&self) -> (r: bool)
        requires
            self.wf(),
        ensures
            r == (self@.len() == 0),
    {
        self.len() == 0
    }

    /// Where the first element lies.
    pub fn offset(&self) -> (r: u32)
        ensures
            r == self.at(),
    {
        self.packed >> 12
    }

    /// The elements.
    pub fn as_slice(&self) -> (r: &[T])
        ensures
            r@ == self@,
    {
        self.data.as_slice()
    }
}

impl<'id, T> Default for FSmall<'id, T> {
    fn default() -> (r: FSmall<'id, T>)
        ensures
            r.wf(),
            r@ == Seq::<T>::empty(),
            r.at() == 0,
    {
        assert(0u32 & 0xfff == 0 && 0u32 >> 12 == 0) by (bit_vector);
        let r = FSmall { packed: 0, data: Vec::new(), brand: Brand::new() };
        assert(r@ =~= Seq::<T>::empty());
        r
    }
}

/// What a pass lets stay stays in its order: behind exactly those before it
/// that stay. What it does not let stay is gone.
pub proof fn law_kept_stay_in_order<T>(outcomes: Seq<(T, bool)>, i: int)
    requires
        0 <= i < outcomes.len(),
    ensures
        outcomes[i].1 ==> {
            let before = kept(outcomes.take(i)).len();
            before < kept(outcomes).len() && kept(outcomes)[before as int] == outcomes[i].0
        },
        !outcomes[i].1 ==> kept(outcomes) == kept(outcomes.remove(i)),
    decreases outcomes.len(),
{
    let less = outcomes.drop_last();
    if i < less.len() {
        law_kept_stay_in_order(less, i);
        assert(less.take(i) =~= outcomes.take(i));
        assert(outcomes.remove(i).drop_last() =~= less.remove(i));
        assert(outcomes.remove(i).last() == outcomes.last());
    } else {
        assert(outcomes.take(i) =~= less);
        assert(outcomes.remove(i) =~= less);
    }
}

} // verus!
