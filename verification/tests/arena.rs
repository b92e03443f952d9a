//! Frames, handles and buckets.

use ltop::arena::{scope, FBox, FBuilder, FReserve, FSpan, FStr, FVec, Frame, Zeroable, SIZE};
use ltop::nest::FNest;
use std::cell::Cell;
use std::rc::Rc;

/// Runs `f` in a scope of its own. Returns how far the arena around it is filled
/// when `f` is done.
fn offset_after(f: impl for<'s> FnOnce(&mut Frame<'s>)) -> usize {
    scope(0, |outer| {
        outer.scope(f);
        outer.offset()
    })
}

#[derive(Debug)]
struct Counter(Rc<Cell<u32>>);

impl Drop for Counter {
    fn drop(&mut self) {
        self.0.set(self.0.get() + 1);
    }
}

#[derive(Debug)]
struct Numbered(u32, Rc<Cell<u32>>);

impl Drop for Numbered {
    fn drop(&mut self) {
        self.1.set(self.1.get() + 1);
    }
}

#[derive(Debug, PartialEq)]
struct Marker;

#[derive(Debug, PartialEq)]
struct Blob {
    a: u32,
    b: u64,
    arr: [u8; 16],
}

impl Zeroable for Blob {
    fn zero_value() -> Blob {
        Blob { a: 0, b: 0, arr: [0; 16] }
    }

    fn zeroed() -> Blob {
        Blob { a: 0, b: 0, arr: [0; 16] }
    }
}

#[derive(Debug, PartialEq)]
struct ProcInfo {
    pid: u32,
    rss_kib: u32,
}

fn collect_procs(b: &mut FBuilder<'_, '_, ProcInfo>, pids: &[u32]) {
    for &pid in pids {
        b.push(ProcInfo { pid, rss_kib: pid * 1024 + 7 });
    }
}

#[test]
fn alloc_primitive() {
    let offset = offset_after(|f| {
        let mut x = f.alloc_box("test", 42u32);
        assert_eq!(*x, 42);
        *x = 99;
        assert_eq!(*x, 99);
    });
    assert_eq!(offset, 0);
}

#[test]
fn alloc_multiple_coexist() {
    scope(0, |f| {
        let mut a = f.alloc_box("test", 1u64);
        let mut b = f.alloc_box("test", 2u64);
        *a += 10;
        *b += 20;
        assert_eq!(*a, 11);
        assert_eq!(*b, 22);
    });
}

#[test]
fn alignment_respected() {
    scope(0, |f| {
        let _small = f.alloc_box("test", 0xAAu8);
        let big = f.alloc_box("test", 0xDEADBEEF_CAFEBABEu64);
        assert_eq!((f.offset() - 8) % 8, 0);
        assert_eq!(f.offset(), 16);
        assert_eq!(*big, 0xDEADBEEF_CAFEBABE);
    });
}

#[test]
fn fbox_runs_drop() {
    let drops = Rc::new(Cell::new(0u32));
    scope(0, |f| {
        let _b1 = f.alloc_box("test", Counter(drops.clone()));
        let _b2 = f.alloc_box("test", Counter(drops.clone()));
    });
    assert_eq!(drops.get(), 2);
}

#[test]
fn alloc_zeroed_primitive_and_array() {
    scope(0, |f| {
        let x: FBox<u32> = f.alloc_zeroed("test");
        assert_eq!(*x, 0);
        let y: FBox<u64> = f.alloc_zeroed("test");
        assert_eq!(*y, 0);
        let flag: FBox<bool> = f.alloc_zeroed("test");
        assert!(!*flag);
        let arr: FBox<[u32; 4]> = f.alloc_zeroed("test");
        assert_eq!(*arr, [0, 0, 0, 0]);
    });
}

#[test]
fn alloc_zeroed_user_struct() {
    scope(0, |f| {
        let b: FBox<Blob> = f.alloc_zeroed("test");
        assert_eq!(*b, Blob { a: 0, b: 0, arr: [0; 16] });
    });
}

#[test]
fn subscope_reclaims_offset() {
    let offset = offset_after(|f| {
        let _a = f.alloc_box("test", 1u64);
        let before = f.offset();
        f.scope(|sub| {
            let _b = sub.alloc_box("test", 2u64);
            assert!(sub.offset() > before);
        });
        assert_eq!(f.offset(), before);
        let d = f.alloc_box("test", 4u64);
        assert_eq!(*d, 4);
    });
    assert_eq!(offset, 0);
}

#[test]
fn alloc_zst() {
    scope(0, |f| {
        let before = f.offset();
        let _m = f.alloc_box("test", Marker);
        assert_eq!(f.offset(), before);
    });
}

#[test]
fn alloc_align_16() {
    scope(0, |f| {
        let _small = f.alloc_box("test", 0u8);
        let a = f.alloc_box("test", 1u128 << 64 | 2);
        assert_eq!((f.offset() - 16) % 16, 0);
        assert_eq!(*a, 1u128 << 64 | 2);
    });
}

#[test]
fn span_basic() {
    scope(0, |f| {
        let v: FSpan<u32> = f.span("test", |b| {
            b.push(10);
            b.push(20);
            b.push(30);
        });
        assert_eq!(v.len(), 3);
        assert_eq!(v.as_slice(), &[10, 20, 30]);
        assert_eq!(v.iter().sum::<u32>(), 60);
    });
}

#[test]
fn span_exact_size() {
    scope(0, |f| {
        let before = f.offset();
        let _v: FSpan<u32> = f.span("test", |b| {
            b.push(1);
            b.push(2);
            b.push(3);
        });
        let after = f.offset();
        let consumed = after - before;
        assert!(consumed >= 12 && consumed < 12 + 4);
    });
}

#[test]
fn fbuilder_len_and_is_empty() {
    scope(0, |f| {
        let _v: FSpan<u32> = f.span("test", |b| {
            assert!(b.is_empty());
            assert_eq!(b.len(), 0);
            b.push(1);
            assert!(!b.is_empty());
            assert_eq!(b.len(), 1);
            b.push(2);
            b.push(3);
            assert_eq!(b.len(), 3);
        });
    });
}

#[test]
fn span_extend_from_empty_slice() {
    scope(0, |f| {
        let before = f.offset();
        let v: FSpan<u32> = f.span("test", |b| {
            b.extend_from_slice(&[]);
        });
        assert_eq!(v.len(), 0);
        assert_eq!(f.offset() - before, 0);
    });
}

#[test]
fn span_zst() {
    scope(0, |f| {
        let before = f.offset();
        let v: FSpan<Marker> = f.span("test", |b| {
            b.push(Marker);
            b.push(Marker);
            b.push(Marker);
        });
        assert_eq!(v.len(), 3);
        assert_eq!(f.offset(), before);
    });
}

#[test]
fn span_empty_closure() {
    scope(0, |f| {
        let v: FSpan<u32> = f.span("test", |_b| {});
        assert_eq!(v.len(), 0);
        assert!(v.is_empty());
    });
}

#[test]
fn zeros_default_init() {
    scope(0, |f| {
        let v: FSpan<u32> = f.zeros("test", 5);
        assert_eq!(v.as_slice(), &[0, 0, 0, 0, 0]);
        let mut v: FSpan<u32> = f.zeros("test", 4);
        for (i, x) in v.iter_mut().enumerate() { *x = (i * 10) as u32; }
        assert_eq!(v.as_slice(), &[0, 10, 20, 30]);
        let empty: FSpan<u64> = f.zeros("test", 0);
        assert!(empty.is_empty());
        let flags: FSpan<bool> = f.zeros("test", 3);
        assert_eq!(flags.as_slice(), &[false, false, false]);
        let opts: FSpan<Option<u32>> = f.zeros("test", 2);
        assert_eq!(opts.as_slice(), &[None, None]);
    });
}

#[test]
fn zeros_exact_size() {
    scope(0, |f| {
        let before = f.offset();
        let _v: FSpan<u32> = f.zeros("test", 10);
        let after = f.offset();
        let consumed = after - before;
        assert!(consumed >= 40 && consumed < 40 + 4,
            "zeros consumed {} bytes, expected ~40", consumed);
    });
}

#[test]
fn compact_reclaims_intermediates() {
    scope(0, |f| {
        let before = f.offset();
        let result: FSpan<u32> = f.compact("test", |inner| {
            let _scratch: FSpan<u32> = inner.zeros("test", 256);
            inner.collect("test", [42u32, 43, 44].iter().copied())
        });
        let after = f.offset();
        let consumed = after - before;
        assert!(consumed >= 12 && consumed < 12 + 4,
            "compact left {} bytes in arena, expected ~12", consumed);
        assert_eq!(result.as_slice(), &[42, 43, 44]);
    });
}

#[test]
fn compact_preserves_contents_and_rewinds() {
    scope(0, |f| {
        let result: FSpan<u32> = f.compact("test", |inner| {
            let _a: FSpan<u32> = inner.collect("test", [1u32, 2, 3].iter().copied());
            let _b: FSpan<u32> = inner.collect("test", [10u32, 20, 30, 40].iter().copied());
            let c: FSpan<u32> = inner.collect("test", [100u32, 200].iter().copied());
            let _d: FSpan<u32> = inner.zeros("test", 64);
            c
        });
        assert_eq!(result.as_slice(), &[100, 200]);
    });
}

#[test]
fn compact_empty_result() {
    scope(0, |f| {
        let before = f.offset();
        let result: FSpan<u32> = f.compact("test", |inner| {
            let _big: FSpan<u32> = inner.zeros("test", 100);
            inner.collect("test", std::iter::empty())
        });
        assert!(result.is_empty());
        assert_eq!(f.offset() - before, 0);
    });
}

#[test]
fn compact_no_move_needed() {
    scope(0, |f| {
        let result: FSpan<u32> = f.compact("test", |inner| {
            inner.collect("test", [7u32, 8, 9].iter().copied())
        });
        assert_eq!(result.as_slice(), &[7, 8, 9]);
    });
}

#[test]
fn span_extend_from_slice() {
    scope(0, |f| {
        let v: FSpan<u8> = f.span("test", |b| {
            b.extend_from_slice(b"hello ");
            b.extend_from_slice(b"world");
        });
        assert_eq!(v.as_slice(), b"hello world");
    });
}

#[test]
fn fspan_mutates_in_place() {
    scope(0, |f| {
        let mut v: FSpan<u32> = f.span("test", |b| {
            for i in 0..4 { b.push(i); }
        });
        for x in v.as_mut_slice() { *x *= 10; }
        assert_eq!(v.as_slice(), &[0, 10, 20, 30]);
    });
}

#[test]
fn fspan_drops_elements() {
    let drops = Rc::new(Cell::new(0u32));
    scope(0, |f| {
        let _v: FSpan<Counter> = f.span("test", |b| {
            b.push(Counter(drops.clone()));
            b.push(Counter(drops.clone()));
            b.push(Counter(drops.clone()));
        });
    });
    assert_eq!(drops.get(), 3);
}

#[test]
fn str_via_write() {
    scope(0, |f| {
        let s: FStr = f.str("test", |b| {
            b.extend_from_slice(format!("pid={} rss={}M", 12345u32, 678u32).as_bytes());
        });
        assert_eq!(s.as_slice(), b"pid=12345 rss=678M");
        assert_eq!(s.len(), 18);
    });
}

#[test]
fn str_exact_size() {
    scope(0, |f| {
        let before = f.offset();
        let _s = f.str("test", |b| {
            b.extend_from_slice(format!("/proc/1/stat").as_bytes());
        });
        let after = f.offset();
        assert_eq!(after - before, "/proc/1/stat".len());
    });
}

#[test]
fn fstr_raw_bytes_pass_through() {
    scope(0, |f| {
        let s: FStr = f.str("test", |b| {
            b.extend_from_slice(b"hi \xff there");
        });
        assert_eq!(s.as_slice(), b"hi \xff there");
    });
}

#[test]
fn fstr_as_c_string() {
    scope(0, |f| {
        let s: FStr = f.str("test", |b| {
            b.extend_from_slice(format!("/tmp/path").as_bytes());
            b.push(0);
        });
        assert_eq!(s.as_slice(), b"/tmp/path\0");
        let first = s.as_slice()[0];
        assert_eq!(first, b'/');
    });
}

#[test]
fn reserve_basic() {
    scope(0, |f| {
        let mut r: FReserve<u32> = f.reserve("test", 10);
        assert_eq!(r.len(), 0);
        assert_eq!(r.capacity(), 10);
        r.push(1).unwrap();
        r.push(2).unwrap();
        r.push(3).unwrap();
        let v: FSpan<u32> = r.freeze();
        assert_eq!(v.as_slice(), &[1, 2, 3]);
        assert_eq!(v.len(), 3);
    });
}

#[test]
fn reserve_empty_freeze() {
    scope(0, |f| {
        let before = f.offset();
        let mut r: FReserve<u32> = f.reserve("test", 50);
        assert_eq!(r.scope(|s| s.offset()) - before, 200);
        let v = r.freeze();
        assert_eq!(v.len(), 0);
        assert!(v.is_empty());
        assert_eq!(f.offset(), before);
    });
}

#[test]
fn reserve_zst() {
    scope(0, |f| {
        let before = f.offset();
        let mut r: FReserve<Marker> = f.reserve("test", 10);
        assert_eq!(r.scope(|s| s.offset()), before);
        r.push(Marker).unwrap();
        r.push(Marker).unwrap();
        r.push(Marker).unwrap();
        let v = r.freeze();
        assert_eq!(v.len(), 3);
        assert_eq!(f.offset(), before);
    });
}

#[test]
fn reserve_push_returns_err_when_full() {
    scope(0, |f| {
        let mut r: FReserve<u32> = f.reserve("test", 2);
        assert_eq!(r.push(10), Ok(()));
        assert_eq!(r.push(20), Ok(()));
        assert_eq!(r.push(30), Err(30));
        assert_eq!(r.len(), 2);
        let v = r.freeze();
        assert_eq!(v.as_slice(), &[10, 20]);
    });
}

#[test]
fn reserve_freeze_rewinds_tail() {
    scope(0, |f| {
        let before = f.offset();
        let mut r: FReserve<u64> = f.reserve("test", 100);
        assert_eq!(r.scope(|s| s.offset()), before + 800);
        r.push(42).unwrap();
        r.push(43).unwrap();
        let _v = r.freeze();
        assert_eq!(f.offset(), before + 16);
    });
}

#[test]
fn reserve_sub_scope_interleaved() {
    scope(0, |f| {
        let before_reserve = f.offset();
        let mut r: FReserve<u32> = f.reserve("test", 16);
        let after_reserve = r.scope(|s| s.offset());
        assert_eq!(after_reserve - before_reserve, 64);
        r.push(1).unwrap();
        r.push(2).unwrap();
        r.scope(|s| {
            let _scratch = s.alloc_box("test", 0xDEADBEEFu64);
            assert!(s.offset() > after_reserve);
        });
        assert_eq!(r.scope(|s| s.offset()), after_reserve);
        r.push(3).unwrap();
        r.scope(|s| {
            let _big = s.alloc_box("test", [0u64; 32]);
        });
        assert_eq!(r.scope(|s| s.offset()), after_reserve);
        r.push(4).unwrap();
        r.scope(|s| {
            let _a = s.alloc_box("test", 1u64);
            s.scope(|s2| {
                let _b = s2.alloc_box("test", 2u64);
            });
        });
        assert_eq!(r.scope(|s| s.offset()), after_reserve);
        let v = r.freeze();
        assert_eq!(v.as_slice(), &[1, 2, 3, 4]);
        assert_eq!(f.offset() - before_reserve, 16);
    });
}

#[test]
fn reserve_drop_rewinds_arena() {
    scope(0, |f| {
        let before = f.offset();
        {
            let mut r: FReserve<u32> = f.reserve("test", 100);
            r.push(1).unwrap();
            r.push(2).unwrap();
            assert_eq!(r.scope(|s| s.offset()) - before, 400);
        }
        assert_eq!(f.offset(), before);
    });
}

#[test]
fn reserve_drop_without_freeze_runs_element_drops() {
    let drops = Rc::new(Cell::new(0u32));
    scope(0, |f| {
        let mut r: FReserve<Counter> = f.reserve("test", 8);
        r.push(Counter(drops.clone())).unwrap();
        r.push(Counter(drops.clone())).unwrap();
        r.push(Counter(drops.clone())).unwrap();
    });
    assert_eq!(drops.get(), 3);
}

#[test]
fn reserve_freeze_runs_element_drops_via_fspan() {
    let drops = Rc::new(Cell::new(0u32));
    scope(0, |f| {
        let mut r: FReserve<Counter> = f.reserve("test", 8);
        r.push(Counter(drops.clone())).unwrap();
        r.push(Counter(drops.clone())).unwrap();
        let _v = r.freeze();
        assert_eq!(drops.get(), 0);
    });
    assert_eq!(drops.get(), 2);
}

#[test]
fn reserve_extend_from_slice() {
    scope(0, |f| {
        let mut r: FReserve<u8> = f.reserve("test", 32);
        r.extend_from_slice(b"hello ");
        r.extend_from_slice(b"world");
        r.extend_from_slice(b"");
        assert_eq!(r.len(), 11);
        let v = r.freeze();
        assert_eq!(v.as_slice(), b"hello world");
    });
}

#[test]
fn reserve_truncate() {
    let drops = Rc::new(Cell::new(0u32));
    scope(0, |f| {
        let mut r: FReserve<Counter> = f.reserve("test", 8);
        r.push(Counter(drops.clone())).unwrap();
        r.push(Counter(drops.clone())).unwrap();
        r.push(Counter(drops.clone())).unwrap();
        r.truncate(1);
        assert_eq!(drops.get(), 2);
        assert_eq!(r.len(), 1);
        let _v = r.freeze();
    });
    assert_eq!(drops.get(), 3);
}

#[test]
fn an_inner_scope_goes_on_where_the_outer_ends() {
    scope(0, |outer| {
        let _a = outer.alloc_box("test", 1u64);
        let inner = scope(outer.offset(), |f| {
            let start = (f.offset(), f.remaining());
            let _b = f.alloc_box("test", 2u64);
            (start, f.offset())
        });
        assert_eq!(inner, ((8, SIZE - 8), 16));
        assert_eq!(outer.offset(), 8);
    });
}

#[test]
fn fvec_takes_the_bytes_of_its_records() {
    scope(0, |f| {
        let mut v: FVec<String, [u32; 2]> = f.vec_as("test", 3);
        assert_eq!(f.offset(), 24);
        assert!(v.push("a".to_string()).is_ok());
        assert_eq!((v.len(), v.capacity()), (1, 3));
        assert_eq!(v[0], "a");
    });
}

#[test]
fn fvec_push_clear_reuse() {
    scope(0, |f| {
        let mut b: FVec<u32> = f.vec("test", 8);
        assert_eq!(b.capacity(), 8);
        b.push(1).unwrap();
        b.push(2).unwrap();
        b.push(3).unwrap();
        assert_eq!(b.as_slice(), &[1, 2, 3]);
        b.clear();
        assert_eq!(b.len(), 0);
        b.push(10).unwrap();
        b.push(20).unwrap();
        assert_eq!(b.as_slice(), &[10, 20]);
    });
}

#[test]
fn fvec_push_returns_err_when_full() {
    scope(0, |f| {
        let mut v: FVec<u32> = f.vec("test", 2);
        assert_eq!(v.push(10), Ok(()));
        assert_eq!(v.push(20), Ok(()));
        assert_eq!(v.push(30), Err(30));
        assert_eq!(v.len(), 2);
        assert_eq!(v.as_slice(), &[10, 20]);
    });
}

#[test]
fn fvec_coexists_with_other_allocs() {
    scope(0, |f| {
        let mut b1: FVec<u32> = f.vec("test", 4);
        let _x = f.alloc_box("test", 42u64);    
        let mut b2: FVec<u32> = f.vec("test", 4);
        b1.push(1).unwrap();
        b2.push(100).unwrap();
        assert_eq!(b1.as_slice(), &[1]);
        assert_eq!(b2.as_slice(), &[100]);
    });
}

#[test]
fn fvec_swap() {
    scope(0, |f| {
        let mut a: FVec<u32> = f.vec("test", 4);
        let mut b: FVec<u32> = f.vec("test", 4);
        a.push(1).unwrap();
        a.push(2).unwrap();
        b.push(100).unwrap();
        std::mem::swap(&mut a, &mut b);
        assert_eq!(a.as_slice(), &[100]);
        assert_eq!(b.as_slice(), &[1, 2]);
        a.clear();
        b.clear();
        a.push(9).unwrap();
        assert_eq!(a.as_slice(), &[9]);
    });
}

#[test]
fn fvec_retain_in_place() {
    scope(0, |f| {
        let mut v: FVec<u32> = f.vec("test", 8);
        for i in 0..6 { v.push(i).unwrap(); }
        v.retain_in_place(|x| { if *x % 2 == 0 { *x += 100; true } else { false } });
        assert_eq!(v.as_slice(), &[100, 102, 104]);
    });
}

#[test]
fn fvec_retain_in_place_drops_discarded() {
    let drops = Rc::new(Cell::new(0u32));
    scope(0, |f| {
        let mut v: FVec<Numbered> = f.vec("test", 8);
        for i in 0..5 { v.push(Numbered(i, drops.clone())).unwrap(); }
        v.retain_in_place(|c| c.0 % 2 == 0);
        assert_eq!(drops.get(), 2);
        assert_eq!(v.len(), 3);
    });
    assert_eq!(drops.get(), 5);
}

#[test]
fn fvec_retain_in_place_all_kept() {
    scope(0, |f| {
        let mut v: FVec<u32> = f.vec("test", 4);
        for i in 0..4 { v.push(i).unwrap(); }
        v.retain_in_place(|_| true);
        assert_eq!(v.as_slice(), &[0, 1, 2, 3]);
    });
}

#[test]
fn fvec_retain_in_place_all_discarded() {
    scope(0, |f| {
        let mut v: FVec<u32> = f.vec("test", 4);
        for i in 0..4 { v.push(i).unwrap(); }
        v.retain_in_place(|_| false);
        assert!(v.is_empty());
    });
}

#[test]
fn fvec_drops_elements_on_clear_and_drop() {
    let drops = Rc::new(Cell::new(0u32));
    scope(0, |f| {
        let mut b: FVec<Counter> = f.vec("test", 4);
        b.push(Counter(drops.clone())).unwrap();
        b.push(Counter(drops.clone())).unwrap();
        b.clear();
        assert_eq!(drops.get(), 2);
        b.push(Counter(drops.clone())).unwrap();
    });
    assert_eq!(drops.get(), 3);
}

#[test]
fn ltop_shape() {
    let mut ticks_run = 0;
    let offset = offset_after(|init| {
        init.scope(|tick_a| {
            let procs: FSpan<ProcInfo> = tick_a.span("test", |b| {
                collect_procs(b, &[42, 17, 99]);
            });
            let pid_strs: FStr = tick_a.str("test", |b| {
                for p in procs.iter() {
                    b.extend_from_slice(format!("{} ", p.pid).as_bytes());
                }
            });
            assert_eq!(procs.len(), 3);
            assert_eq!(pid_strs.as_slice(), b"42 17 99 ");
        });
        init.scope(|tick_b| {
            let procs: FSpan<ProcInfo> = tick_b.span("test", |b| {
                collect_procs(b, &[1, 2]);
            });
            assert_eq!(procs.len(), 2);
            assert_eq!(procs[0], ProcInfo { pid: 1, rss_kib: 1031 });
        });
        ticks_run += 1;
    });
    assert_eq!(ticks_run, 1);
    assert_eq!(offset, 0);
}

#[test]
fn nest_empty_buckets() {
    let offset = offset_after(|f| {
        let nest: FNest<u32> = f.nest("test", 0, || std::iter::empty());
        assert!(nest.is_empty());
        assert_eq!(nest.len(), 0);
        assert_eq!(nest.flat(), &[] as &[u32]);
        assert_eq!(nest.iter().len(), 0);
    });
    assert_eq!(offset, 0);
}

#[test]
fn nest_single_bucket() {
    let offset = offset_after(|f| {
        let items = [10u32, 20, 30];
        let nest: FNest<u32> =
            f.nest("test", 1, || items.iter().copied().map(|v| (0u32, v)));
        assert_eq!(nest.len(), 1);
        assert_eq!(nest.bucket(0), &[10, 20, 30]);
        assert_eq!(nest.flat(), &[10, 20, 30]);
    });
    assert_eq!(offset, 0);
}

#[test]
fn nest_multiple_buckets_preserves_order() {
    let offset = offset_after(|f| {
        let items: &[(u32, u32)] = &[
            (2, 200),
            (0,  10),
            (2, 201),
            (1, 100),
            (0,  11),
            (1, 101),
            (2, 202),
        ];
        let nest: FNest<u32> = f.nest("test", 3, || items.iter().copied());
        assert_eq!(nest.len(), 3);
        assert_eq!(nest.bucket(0), &[10, 11]);
        assert_eq!(nest.bucket(1), &[100, 101]);
        assert_eq!(nest.bucket(2), &[200, 201, 202]);
        assert_eq!(nest.flat().len(), 7);
    });
    assert_eq!(offset, 0);
}

#[test]
fn nest_empty_buckets_interleaved() {
    let offset = offset_after(|f| {
        let items: &[(u32, u32)] = &[(0, 1), (3, 2), (3, 3)];
        let nest: FNest<u32> = f.nest("test", 5, || items.iter().copied());
        assert_eq!(nest.len(), 5);
        assert_eq!(nest.bucket(0), &[1]);
        assert_eq!(nest.bucket(1), &[] as &[u32]);
        assert_eq!(nest.bucket(2), &[] as &[u32]);
        assert_eq!(nest.bucket(3), &[2, 3]);
        assert_eq!(nest.bucket(4), &[] as &[u32]);
    });
    assert_eq!(offset, 0);
}

#[test]
fn nest_skewed_distribution() {
    let offset = offset_after(|f| {
        let n = 10u32;
        let hot_bucket = 7u32;
        let hot_count = 100u32;
        let nest: FNest<u32> = f.nest("test", n, || {
            (0..hot_count).map(move |v| (hot_bucket, v))
        });
        assert_eq!(nest.len(), n as usize);
        for i in 0..n as usize {
            if i as u32 == hot_bucket {
                assert_eq!(nest.bucket(i).len(), hot_count as usize);
                assert_eq!(nest.bucket(i)[0], 0);
                assert_eq!(nest.bucket(i)[hot_count as usize - 1], hot_count - 1);
            } else {
                assert!(nest.bucket(i).is_empty());
            }
        }
    });
    assert_eq!(offset, 0);
}

#[test]
fn nest_reclaims_cursor_scratch() {
    let offset = offset_after(|f| {
        let before = f.offset();
        let items: &[(u32, u32)] = &[
            (0, 1), (1, 10), (0, 2), (2, 100), (1, 11), (2, 101),
        ];
        let nest: FNest<u32> = f.nest("test", 3, || items.iter().copied());
        let after = f.offset();
        assert_eq!(after - before, 4 * (3 + 1) + 4 * 6);
        assert_eq!(nest.flat().len(), 6);
    });
    assert_eq!(offset, 0);
}

#[test]
fn nest_calls_build_twice() {
    let call_count = Cell::new(0u32);
    scope(0, |f| {
        let _nest: FNest<u32> = f.nest("test", 2, || {
            call_count.set(call_count.get() + 1);
            [(0u32, 1u32), (1, 2)].into_iter()
        });
    });
    assert_eq!(call_count.get(), 2);
}

#[test]
fn nest_iter_yields_buckets_in_order() {
    let offset = offset_after(|f| {
        let items: &[(u32, u32)] = &[(0, 1), (2, 30), (1, 20), (0, 2)];
        let nest: FNest<u32> = f.nest("test", 3, || items.iter().copied());
        let collected: Vec<&[u32]> = nest.iter();
        assert_eq!(collected.len(), 3);
        assert_eq!(collected[0], &[1, 2]);
        assert_eq!(collected[1], &[20]);
        assert_eq!(collected[2], &[30]);
    });
    assert_eq!(offset, 0);
}

#[test]
fn empty_span_has_no_bytes() {
    scope(0, |f| {
        let before = f.offset();
        let s: FSpan<u32> = f.empty();
        assert_eq!(s.len(), 0);
        assert!(s.is_empty());
        assert_eq!(s.as_slice(), &[] as &[u32]);
        assert_eq!(f.offset(), before);
    });
}

#[test]
fn replace_installs_result_at_old_offset() {
    let offset = offset_after(|f| {
        let _anchor: FBox<u32> = f.alloc_box("anchor", 0xAA);
        let before = f.offset();
        let prev: FSpan<u32> = f.empty();
        assert_eq!(prev.len(), 0);
        let next = f.replace("test", prev, |frame, old| {
            assert_eq!(old.len(), 0);
            frame.span("inner", |b| { b.push(10); b.push(20); b.push(30); })
        });
        assert_eq!(next.as_slice(), &[10, 20, 30]);
        assert_eq!(f.offset(), before + 3 * 4);
    });
    assert_eq!(offset, 0);
}

#[test]
fn replace_reclaims_build_scratch_and_old_bytes() {
    let offset = offset_after(|f| {
        let before = f.offset();
        let prev: FSpan<u32> = f.collect("prev", [1u32, 2, 3, 4, 5].iter().copied());
        let after_prev = f.offset();
        assert_eq!(after_prev - before, 5 * 4);
        let next = f.replace("test", prev, |frame, old| {
            assert_eq!(old.as_slice(), &[1, 2, 3, 4, 5]);
            let _scratch: FSpan<u32> = frame.zeros("scratch", 200);
            frame.collect("new", old.as_slice().iter().map(|x| x * 10))
        });
        assert_eq!(next.as_slice(), &[10, 20, 30, 40, 50]);
        assert_eq!(f.offset(), before + 5 * 4);
    });
    assert_eq!(offset, 0);
}

#[test]
fn replace_rotates_across_iterations() {
    let offset = offset_after(|f| {
        let anchor_end = {
            let _a: FBox<u64> = f.alloc_box("anchor", 0);
            f.offset()
        };
        let mut prev: FSpan<u32> = f.empty();
        for i in 0..8u32 {
            prev = f.replace("test", prev, |frame, old| {
                frame.span("new", |b| {
                    for &v in old.as_slice() { b.push(v + i); }
                    b.push(100 + i);
                })
            });
            assert_eq!(prev.len(), (i + 1) as usize);
            assert_eq!(f.offset(), anchor_end + (i + 1) as usize * 4);
        }
        assert_eq!(prev.as_slice().len(), 8);
    });
    assert_eq!(offset, 0);
}

#[test]
fn replace_empty_result_leaves_offset_at_old_start() {
    scope(0, |f| {
        let before = f.offset();
        let prev: FSpan<u32> = f.collect("prev", [1u32, 2, 3].iter().copied());
        let next = f.replace("test", prev, |frame, _old| frame.empty::<u32>());
        assert_eq!(next.len(), 0);
        assert_eq!(f.offset(), before);
    });
}

#[test]
fn replace_with_inner_scope_rewinds_cleanly() {
    scope(0, |f| {
        let before = f.offset();
        let prev: FSpan<u32> = f.empty();
        let next = f.replace("test", prev, |frame, _old| {
            frame.scope(|sub| {
                let _big: FSpan<u64> = sub.zeros("big", 500);
                let _: FSpan<u32> = sub.collect("throwaway", 0u32..10);
            });
            frame.collect("result", [7u32, 11, 13].iter().copied())
        });
        assert_eq!(next.as_slice(), &[7, 11, 13]);
        assert_eq!(f.offset(), before + 3 * 4);
    });
}

#[test]
fn replace2_installs_both_results_in_order() {
    let offset = offset_after(|f| {
        let _anchor: FBox<u32> = f.alloc_box("anchor", 0xAA);
        let before = f.offset();
        let s1: FSpan<u32> = f.empty();
        let s2: FSpan<u64> = f.empty();
        let (n1, n2) = f.replace2("a", s1, "b", s2, |frame, _o1, _o2| {
            let n1 = frame.span("n1", |b| { b.push(10u32); b.push(20); b.push(30); });
            let _scratch: FSpan<u32> = frame.zeros("scratch", 100);
            let n2 = frame.span("n2", |b| { b.push(7u64); b.push(11); });
            (n1, n2)
        });
        assert_eq!(n1.as_slice(), &[10, 20, 30]);
        assert_eq!(n2.as_slice(), &[7, 11]);
        assert_eq!(n1.offset() as usize, before);
        assert_eq!(n2.offset() as usize, before + 12);
        assert_eq!(f.offset(), before + 12 + 16);
    });
    assert_eq!(offset, 0);
}

#[test]
fn replace2_rotates_across_iterations() {
    let offset = offset_after(|f| {
        let anchor_end = {
            let _a: FBox<u32> = f.alloc_box("anchor", 0);
            f.offset()
        };
        let mut s1: FSpan<u32> = f.empty();
        let mut s2: FSpan<u32> = f.empty();
        for i in 0..6u32 {
            let (n1, n2) = f.replace2("a", s1, "b", s2, |frame, o1, o2| {
                let n1 = frame.span("a", |b| {
                    for &v in o1.as_slice() { b.push(v); }
                    b.push(i);
                });
                let n2 = frame.span("b", |b| {
                    for &v in o2.as_slice() { b.push(v + 1); }
                    b.push(100 + i);
                });
                (n1, n2)
            });
            s1 = n1;
            s2 = n2;
            assert_eq!(s1.len(), (i + 1) as usize);
            assert_eq!(s2.len(), (i + 1) as usize);
            assert_eq!(s1.offset() as usize, anchor_end);
            assert_eq!(s2.offset() as usize, anchor_end + (i + 1) as usize * 4);
            assert_eq!(f.offset(), anchor_end + 2 * (i + 1) as usize * 4);
        }
    });
    assert_eq!(offset, 0);
}

#[test]
fn replace2_zst_first_span_compiles_and_runs() {
    let offset = offset_after(|f| {
        let _anchor: FBox<u32> = f.alloc_box("anchor", 0);
        let before = f.offset();
        let mut s1: FSpan<()> = f.empty();
        let mut s2: FSpan<u32> = f.empty();
        for i in 0..3u32 {
            let (n1, n2) = f.replace2("zst", s1, "real", s2, |frame, o1, o2| {
                assert_eq!(o1.len(), 0);
                let n1 = frame.empty::<()>();
                let n2 = frame.span("real", |b| {
                    for &v in o2.as_slice() { b.push(v); }
                    b.push(i + 1);
                });
                (n1, n2)
            });
            s1 = n1;
            s2 = n2;
            assert_eq!(s1.len(), 0);
            assert_eq!(s2.len(), (i + 1) as usize);
            assert_eq!(s2.offset() as usize, before);
            assert_eq!(f.offset(), before + (i + 1) as usize * 4);
        }
    });
    assert_eq!(offset, 0);
}

#[test]
fn replace2_empty_results_collapse_to_old_start() {
    scope(0, |f| {
        let _anchor: FBox<u64> = f.alloc_box("anchor", 0);
        let before = f.offset();
        let s1: FSpan<u32> = f.collect("s1", [1u32, 2, 3].iter().copied());
        let s2: FSpan<u32> = f.collect("s2", [4u32, 5].iter().copied());
        assert_eq!(f.offset(), before + 5 * 4);
        let (n1, n2) = f.replace2("a", s1, "b", s2, |frame, _o1, _o2| {
            (frame.empty::<u32>(), frame.empty::<u32>())
        });
        assert_eq!(n1.len(), 0);
        assert_eq!(n2.len(), 0);
        assert_eq!(f.offset(), before);
    });
}

#[test]
fn remaining_is_what_is_not_taken() {
    scope(0, |f| {
        assert_eq!(f.remaining(), SIZE);
        let _x = f.alloc_box("test", 7u64);
        assert_eq!(f.remaining(), SIZE - 8);
    });
}

#[test]
fn small_handles_keep_place_and_elements() {
    scope(0, |f| {
        let _anchor = f.alloc_box("anchor", 1u64);
        let s: FStr = f.str("test", |b| b.extend_from_slice(b"name"));
        let small = s.into_small();
        assert_eq!(small.offset(), 8);
        assert_eq!(small.len(), 4);
        assert!(!small.is_empty());
        assert_eq!(small.as_slice(), b"name");
    });
}

#[test]
fn lossy_small_handles_cut_long_runs() {
    scope(0, |f| {
        let s: FStr = f.str("test", |b| b.extend_from_slice(&[7u8; 5000]));
        let small = s.into_small_lossy();
        assert_eq!(small.len(), 4095);
        assert_eq!(small.as_slice(), &[7u8; 4095][..]);
    });
}

#[test]
fn end_of_run_tells_room() {
    assert_eq!(ltop::arena::end_of_run::<u64>(1, 2), Some(24));
    assert_eq!(ltop::arena::end_of_run::<u8>(SIZE, 0), Some(SIZE));
    assert_eq!(ltop::arena::end_of_run::<u8>(SIZE, 1), None);
    assert_eq!(ltop::arena::end_of_run::<u64>(0, SIZE / 8), Some(SIZE));
    assert_eq!(ltop::arena::end_of_run::<u64>(1, SIZE / 8), None);
}

#[test]
fn end_of_nest_tells_room() {
    assert_eq!(ltop::arena::end_of_nest(0, 3, 6), Some(40));
    assert_eq!(ltop::arena::end_of_nest(0, u32::MAX, 0), None);
    assert_eq!(ltop::arena::end_of_nest(SIZE - 16, 1, 1), Some(SIZE - 4));
    assert_eq!(ltop::arena::end_of_nest(SIZE - 12, 1, 1), None);
}

#[test]
fn spare_pages_behind_the_top() {
    let page = 4096;
    assert_eq!(ltop::arena::uncommit_tail(page, 1, page), Some((2 * page, SIZE - page)));
    assert_eq!(ltop::arena::uncommit_tail(page, 0, page), Some((page, SIZE)));
    assert_eq!(ltop::arena::uncommit_tail(page, SIZE as u32, page), None);
    assert_eq!(ltop::arena::uncommit_tail(page, 1, 0), None);
    assert_eq!(ltop::arena::extent(page), (page, SIZE));
}

#[test]
fn flat_joins_buckets() {
    scope(0, |f| {
        let items: &[(u32, u32)] = &[(1, 5), (0, 6), (1, 7)];
        let nest: FNest<u32> = f.nest("test", 2, || items.iter().copied());
        let mut all: Vec<u32> = Vec::new();
        for b in nest.iter() {
            all.extend_from_slice(b);
        }
        assert_eq!(nest.flat(), all.as_slice());
        assert_eq!(nest.flat(), &[6, 5, 7]);
    });
}

#[test]
fn spans_become_vectors_and_back() {
    scope(0, |f| {
        let s: FSpan<u32> = f.collect("s", [4u32, 5, 6].iter().copied());
        let mut v: FVec<u32> = s.into_fvec();
        assert_eq!(v.capacity(), 3);
        assert!(v.is_full());
        assert_eq!(v.pop(), Some(6));
        v.truncate(1);
        let s = v.into_fspan();
        assert_eq!(s.leak(), vec![4]);
    });
}

#[test]
fn byte_vectors_fill_with_zeros() {
    scope(0, |f| {
        let mut v: FVec<u8> = f.vec("v", 4);
        v.push(9).unwrap();
        let all = v.fill_zeroed();
        assert_eq!(all, &[0, 0, 0, 0]);
        all[2] = 7;
        assert_eq!(v.as_slice(), &[0, 0, 7, 0]);
    });
}
