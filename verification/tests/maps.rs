//! Sorting, and maps and sets by number.

use ltop::arena::{scope, FVec};
use ltop::map::{freeze_map, freeze_map_owned, freeze_set, U32Map, U32Set};
use ltop::sort::sort_by_u32_key;

fn keep(_: &mut u32, _: &mut u32) {}

fn add(a: &mut u32, b: &mut u32) {
    *a += *b;
}

#[test]
fn freeze_map_owned_basic() {
    scope(0, |f| {
        let mut buf: FVec<(u32, u32)> = f.vec("test", 4);
        buf.extend([(30u32, 3u32), (10, 1), (20, 2)].into_iter());
        let m = freeze_map_owned(buf, keep);
        let m = m.as_map();
        assert_eq!(m.len(), 3);
        assert_eq!(m.get(&10), Some(&1));
        assert_eq!(m.get(&20), Some(&2));
        assert_eq!(m.get(&30), Some(&3));
        assert_eq!(m.get(&999), None);
    });
}

#[test]
fn freeze_map_owned_merges_duplicates() {
    scope(0, |f| {
        let mut buf: FVec<(u32, u32)> = f.vec("test", 8);
        buf.extend([(1u32, 10), (1, 20), (1, 5), (2, 100), (3, 0), (3, 7)].into_iter());
        let m = freeze_map_owned(buf, add);
        let m = m.as_map();
        assert_eq!(m.len(), 3);
        assert_eq!(m.get(&1), Some(&35));
        assert_eq!(m.get(&2), Some(&100));
        assert_eq!(m.get(&3), Some(&7));
    });
}

#[test]
fn freeze_map_owned_empty() {
    scope(0, |f| {
        let buf: FVec<(u32, u32)> = f.vec("test", 4);
        let m = freeze_map_owned(buf, keep);
        let m = m.as_map();
        assert!(m.is_empty());
        assert_eq!(m.get(&0), None);
    });
}

#[test]
fn freeze_map_owned_outlives_allocator_view() {
    scope(0, |f| {
        let mut buf: FVec<(u32, u32)> = f.vec("test", 4);
        buf.extend([(5u32, 50u32), (2, 20)].into_iter());
        let m = freeze_map_owned(buf, keep);
        let _other: FVec<u64> = f.vec("test", 100);
        let _yet_more: FVec<u32> = f.vec("test", 50);
        assert_eq!(m.as_map().get(&2), Some(&20));
        assert_eq!(m.as_map().get(&5), Some(&50));
    });
}

#[test]
fn freeze_map_owned_multiple_in_one_scope() {
    scope(0, |f| {
        let mut b1: FVec<(u32, u32)> = f.vec("test", 2);
        b1.extend([(1u32, 100u32), (2, 200)].into_iter());
        let m1 = freeze_map_owned(b1, keep);
        let mut b2: FVec<(u32, u32)> = f.vec("test", 2);
        b2.extend([(3u32, 300u32), (4, 400)].into_iter());
        let m2 = freeze_map_owned(b2, keep);
        assert_eq!(m1.as_map().get(&1), Some(&100));
        assert_eq!(m1.as_map().get(&2), Some(&200));
        assert_eq!(m2.as_map().get(&3), Some(&300));
        assert_eq!(m2.as_map().get(&4), Some(&400));
    });
}

#[test]
fn sorts_u32() {
    let mut v = [7u32, 3, 9, 1, 4, 1, 8, 2];
    sort_by_u32_key(&mut v);
    assert_eq!(v, [1, 1, 2, 3, 4, 7, 8, 9]);
}

#[test]
fn sorts_empty_and_single() {
    let mut v: [u32; 0] = [];
    sort_by_u32_key(&mut v);
    let mut w = [42u32];
    sort_by_u32_key(&mut w);
    assert_eq!(w, [42]);
}

#[test]
fn sorts_pair_with_value() {
    let mut v = [
        (3u32, 30u64),
        (1, 10),
        (4, 40),
        (1, 11),
        (5, 50),
        (9, 90),
        (2, 20),
    ];
    sort_by_u32_key(&mut v);
    assert_eq!(v[0].0, 1);
    assert_eq!(v[1].0, 1);
    assert_eq!(v[2], (2, 20));
    assert_eq!(v[3], (3, 30));
    assert_eq!(v[4], (4, 40));
    assert_eq!(v[5], (5, 50));
    assert_eq!(v[6], (9, 90));
}

#[test]
fn sorts_already_sorted() {
    let mut v: Vec<u32> = (0..100).collect();
    sort_by_u32_key(&mut v);
    assert_eq!(v, (0..100).collect::<Vec<_>>());
}

#[test]
fn sorts_reverse() {
    let mut v: Vec<u32> = (0..100).rev().collect();
    sort_by_u32_key(&mut v);
    assert_eq!(v, (0..100).collect::<Vec<_>>());
}

#[test]
fn sorts_fuzzy_with_duplicates() {
    let mut s: u64 = 0x9E3779B97F4A7C15;
    let mut v: Vec<u32> = (0..10_000)
        .map(|_| {
            s ^= s << 13;
            s ^= s >> 7;
            s ^= s << 17;
            (s as u32) & 0xFF
        })
        .collect();
    let mut expected = v.clone();
    expected.sort();
    sort_by_u32_key(&mut v);
    assert_eq!(v, expected);
}

#[test]
fn maps_over_sorted_entries() {
    let entries = [(1u32, 'a'), (5, 'b'), (9, 'c')];
    let m = U32Map::new(&entries);
    assert_eq!(m.len(), 3);
    assert!(m.contains_key(&5));
    assert!(!m.contains_key(&6));
    assert_eq!(m.get(&9), Some(&'c'));
    assert_eq!(m.iter(), &entries);
    assert!(!m.is_empty());
}

#[test]
fn sets_over_sorted_keys() {
    let s = U32Set::new(&[2, 4, 8]);
    assert_eq!(s.len(), 3);
    assert!(s.contains(&4));
    assert!(!s.contains(&5));
    assert!(!s.is_empty());
    assert_eq!(s.iter(), &[2, 4, 8]);
}

#[test]
fn frozen_sets_hold_each_key_once() {
    scope(0, |f| {
        let mut v: FVec<u32> = f.vec("test", 8);
        v.extend_from_slice(&[5, 1, 5, 3, 1]);
        let s = freeze_set(&mut v);
        assert_eq!(s.iter(), &[1, 3, 5]);
    });
}

#[test]
fn merged_maps_ignore_the_order() {
    scope(0, |f| {
        let mut a: FVec<(u32, u32)> = f.vec("a", 4);
        a.extend_from_slice(&[(7, 1), (7, 2), (3, 4), (7, 8)]);
        let mut b: FVec<(u32, u32)> = f.vec("b", 4);
        b.extend_from_slice(&[(7, 8), (3, 4), (7, 2), (7, 1)]);
        let ma = freeze_map(&mut a, add);
        assert_eq!(ma.iter(), &[(3, 4), (7, 11)]);
        let mb = freeze_map(&mut b, add);
        assert_eq!(mb.iter(), &[(3, 4), (7, 11)]);
    });
}
