//! Property lists in the kernel's binary form.

use ltop::mac_sys::AGX_MATCHING_BLOB;
use ltop::osbinary::{
    read_tag, Item, OsBinary, TYPE_ARRAY, TYPE_BOOLEAN, TYPE_DICT, TYPE_NUMBER, TYPE_OBJECT,
    TYPE_STRING, TYPE_SYMBOL,
};

const MAGIC: [u8; 4] = [0xd3, 0x00, 0x00, 0x00];

fn k_eq_7() -> Vec<u8> {
    let mut b = Vec::new();
    b.extend_from_slice(&MAGIC);
    b.extend_from_slice(&0x0100_0001u32.to_le_bytes());
    b.extend_from_slice(&0x0800_0002u32.to_le_bytes());
    b.extend_from_slice(b"k\0\0\0");
    b.extend_from_slice(&0x8400_0020u32.to_le_bytes());
    b.extend_from_slice(&7u32.to_le_bytes());
    b.extend_from_slice(&0u32.to_le_bytes());
    b
}

#[test]
fn parses_root_dict_with_one_pair() {
    let blob = k_eq_7();
    let mut ckpts = vec![0u32; 16];
    let bin = OsBinary::parse(&blob, &mut ckpts).expect("parse");
    let root = bin.root().expect("root");
    let v = bin.find_dict(root, b"k").expect("find k");
    assert_eq!(bin.as_number(v), Some(7));
}

#[test]
fn rejects_wrong_magic() {
    let mut bad = k_eq_7();
    bad[0] = 0;
    let mut ckpts = vec![0u32; 16];
    assert!(OsBinary::parse(&bad, &mut ckpts).is_none());
}

#[test]
fn back_refs_to_symbols_resolve() {
    let mut b = Vec::new();
    b.extend_from_slice(&MAGIC);
    b.extend_from_slice(&0x0100_0002u32.to_le_bytes());
    b.extend_from_slice(&0x0800_0003u32.to_le_bytes());
    b.extend_from_slice(b"kA\0\0");
    b.extend_from_slice(&0x0400_0020u32.to_le_bytes());
    b.extend_from_slice(&7u32.to_le_bytes());
    b.extend_from_slice(&0u32.to_le_bytes());
    b.extend_from_slice(&0x0c00_0001u32.to_le_bytes());
    b.extend_from_slice(&0x8400_0020u32.to_le_bytes());
    b.extend_from_slice(&11u32.to_le_bytes());
    b.extend_from_slice(&0u32.to_le_bytes());

    let mut ckpts = vec![0u32; 16];
    let bin = OsBinary::parse(&b, &mut ckpts).expect("parse");
    let root = bin.root().unwrap();
    let mut seen = Vec::new();
    let tag = read_tag(&b, root.offset).unwrap();
    assert_eq!(tag.ty, TYPE_DICT);
    let mut cursor = root.offset + 4;
    for _ in 0..tag.operand {
        let key_off = cursor;
        cursor += bin.item_len(key_off).unwrap();
        let val_off = cursor;
        cursor += bin.item_len(val_off).unwrap();
        let key = bin.symbol_bytes(key_off).expect("symbol resolve");
        let v = bin.as_number(Item { offset: val_off }).unwrap();
        seen.push((key.to_vec(), v));
    }
    assert_eq!(seen, vec![(b"kA".to_vec(), 7u64), (b"kA".to_vec(), 11u64)]);
}

fn emit_tag(out: &mut Vec<u8>, ty: u8, operand: u32, eoc: bool) {
    let raw: u32 = ((ty as u32) << 24) | (operand & 0x00ff_ffff)
                 | (if eoc { 0x8000_0000 } else { 0 });
    out.extend_from_slice(&raw.to_le_bytes());
}

fn emit_symbol(out: &mut Vec<u8>, s: &[u8], eoc: bool) {
    let len = s.len() as u32 + 1;
    emit_tag(out, TYPE_SYMBOL, len, eoc);
    out.extend_from_slice(s);
    out.push(0);
    while out.len() % 4 != 0 { out.push(0); }
}

fn emit_string(out: &mut Vec<u8>, s: &[u8], eoc: bool) {
    emit_tag(out, TYPE_STRING, s.len() as u32, eoc);
    out.extend_from_slice(s);
    while out.len() % 4 != 0 { out.push(0); }
}

fn emit_number(out: &mut Vec<u8>, value: u64, eoc: bool) {
    emit_tag(out, TYPE_NUMBER, 64, eoc);
    out.extend_from_slice(&(value as u32).to_le_bytes());
    out.extend_from_slice(&((value >> 32) as u32).to_le_bytes());
}

#[test]
fn agx_matching_blob_decodes_to_expected_dict() {
    let mut ckpts = vec![0u32; 32];
    let bin = OsBinary::parse(&AGX_MATCHING_BLOB, &mut ckpts)
        .expect("AGX_MATCHING_BLOB should parse");
    let root = bin.root().expect("root present");
    let root_tag = read_tag(&AGX_MATCHING_BLOB, root.offset).unwrap();
    assert_eq!(root_tag.ty, TYPE_DICT, "root must be Dict");
    assert_eq!(root_tag.operand, 1, "exactly one pair");
    let val = bin.find_dict(root, b"IOProviderClass")
        .expect("IOProviderClass key");
    assert_eq!(bin.as_string(val), Some(&b"AGXAccelerator"[..]));
}

#[test]
fn rejects_blob_truncated_after_magic() {
    let mut ckpts = vec![0u32; 4];
    assert!(OsBinary::parse(&MAGIC, &mut ckpts).is_none());
}

#[test]
fn rejects_blob_truncated_inside_payload() {
    let mut b = Vec::new();
    b.extend_from_slice(&MAGIC);
    emit_tag(&mut b, TYPE_SYMBOL, 4, false);
    b.push(b'x');
    let mut ckpts = vec![0u32; 4];
    assert!(OsBinary::parse(&b, &mut ckpts).is_none());
}

#[test]
fn rejects_dict_with_count_exceeding_actual_items() {
    let mut b = Vec::new();
    b.extend_from_slice(&MAGIC);
    emit_tag(&mut b, TYPE_DICT, 5, false);
    emit_symbol(&mut b, b"k", false);
    emit_number(&mut b, 1, true);
    let mut ckpts = vec![0u32; 16];
    assert!(OsBinary::parse(&b, &mut ckpts).is_none());
}

#[test]
fn rejects_padding_overflow_in_string_operand() {
    let mut b = Vec::new();
    b.extend_from_slice(&MAGIC);
    emit_tag(&mut b, TYPE_SYMBOL, 0x00ff_fffd, false);
    let mut ckpts = vec![0u32; 4];
    assert!(OsBinary::parse(&b, &mut ckpts).is_none());
}

#[test]
fn rejects_object_back_ref_with_out_of_range_index() {
    let mut b = Vec::new();
    b.extend_from_slice(&MAGIC);
    emit_tag(&mut b, TYPE_DICT, 1, false);
    emit_tag(&mut b, TYPE_OBJECT, 99, false);
    emit_number(&mut b, 7, true);
    let mut ckpts = vec![0u32; 16];
    assert!(OsBinary::parse(&b, &mut ckpts).is_none());
}

#[test]
fn one_slot_checkpoint_buffer_handles_any_blob() {
    let blob = k_eq_7();
    let mut ckpts = vec![0u32; 1];
    let bin = OsBinary::parse(&blob, &mut ckpts).expect("parse");
    let root = bin.root().expect("root");
    assert_eq!(bin.as_number(bin.find_dict(root, b"k").unwrap()), Some(7));
}

#[test]
fn stride_doubling_resolves_back_refs_exactly() {
    let mut b = Vec::new();
    b.extend_from_slice(&MAGIC);
    emit_tag(&mut b, TYPE_DICT, 201, false);
    for i in 0..200u32 {
        let name = format!("s{i:03}");
        emit_symbol(&mut b, name.as_bytes(), false);
        emit_number(&mut b, 1000 + i as u64, false);
    }
    emit_tag(&mut b, TYPE_OBJECT, 15, false);
    emit_tag(&mut b, TYPE_OBJECT, 398, true);

    for slots in [4usize, 512] {
        let mut ckpts = vec![0u32; slots];
        let bin = OsBinary::parse(&b, &mut ckpts).expect("parse");
        let root = bin.root().unwrap();
        assert_eq!(bin.as_number(bin.find_dict(root, b"s042").unwrap()),
                   Some(1042), "slots={slots}");
        let mut cursor = root.offset + 4;
        for _ in 0..200 {
            cursor += bin.item_len(cursor).unwrap();
            cursor += bin.item_len(cursor).unwrap();
        }
        let key_off = cursor;
        cursor += bin.item_len(key_off).unwrap();
        let val_off = cursor;
        assert_eq!(bin.symbol_bytes(key_off), Some(&b"s007"[..]),
                   "slots={slots}");
        assert_eq!(bin.as_number(Item { offset: val_off }), Some(1198),
                   "slots={slots}");
    }
}

#[test]
fn as_bool_decodes_true_and_false() {
    let mut b = Vec::new();
    b.extend_from_slice(&MAGIC);
    emit_tag(&mut b, TYPE_DICT, 2, false);
    emit_symbol(&mut b, b"t", false);
    emit_tag(&mut b, TYPE_BOOLEAN, 1, false);
    emit_symbol(&mut b, b"f", false);
    emit_tag(&mut b, TYPE_BOOLEAN, 0, true);
    let mut ckpts = vec![0u32; 16];
    let bin = OsBinary::parse(&b, &mut ckpts).expect("parse");
    let root = bin.root().unwrap();
    assert_eq!(bin.as_bool(bin.find_dict(root, b"t").unwrap()), Some(true));
    assert_eq!(bin.as_bool(bin.find_dict(root, b"f").unwrap()), Some(false));
    let one = bin.find_dict(root, b"t").unwrap();
    let _ = one;
}


#[test]
fn arrays_list_their_items() {
    let mut b = Vec::new();
    b.extend_from_slice(&MAGIC);
    emit_tag(&mut b, TYPE_DICT, 2, false);
    emit_symbol(&mut b, b"list", false);
    emit_tag(&mut b, TYPE_ARRAY, 2, false);
    emit_number(&mut b, 5, false);
    emit_string(&mut b, b"five", true);
    emit_symbol(&mut b, b"name", false);
    emit_symbol(&mut b, b"value", true);
    let mut ckpts = vec![0u32; 4];
    let bin = OsBinary::parse(&b, &mut ckpts).expect("parse");
    let root = bin.root().unwrap();
    let list = bin.find_dict(root, b"list").unwrap();
    let (items, all) = bin.array_items(list).unwrap();
    assert!(all);
    assert_eq!(items.len(), 2);
    assert_eq!(bin.as_number(items[0]), Some(5));
    assert_eq!(bin.as_string(items[1]), Some(&b"five"[..]));
    assert_eq!(bin.as_number(items[1]), None);
    let mut seen = Vec::new();
    assert_eq!(bin.for_each_array(list, |item| seen.push(item)), Some(()));
    assert_eq!(seen, items);
    assert_eq!(bin.for_each_array(items[0], |_| ()), None);
    let name = bin.find_dict(root, b"name").unwrap();
    assert_eq!(bin.as_symbol(name), Some(&b"value"[..]));
    assert_eq!(bin.find_dict(root, b"none"), None);
}

#[test]
fn no_room_for_checkpoints_is_refused() {
    let blob = k_eq_7();
    let mut none: [u32; 0] = [];
    assert!(OsBinary::parse(&blob, &mut none).is_none());
}
