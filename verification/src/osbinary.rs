//! Decoder for the binary form in which the kernel hands out property tables.
//!
//! After a four-byte magic comes a stream of items. Each starts with a
//! little-endian tag word: bits 24 to 30 are the type, bits 0 to 23 an
//! operand, and the top bit marks the end of a collection, which the counts
//! make redundant. A dictionary's operand is its number of key/value pairs,
//! that of an array or set its number of elements; their items follow inline.
//! A number is followed by two words, a symbol, string or data item by its
//! bytes, padded to a multiple of four. Every item but a back-reference is
//! emitted as an object, and a back-reference stands for the object whose
//! number is its operand.
//!
//! The decoder keeps no table of all objects, but a table of checkpoints: the
//! offset of every `stride`-th object. Whenever the table is full, the stride
//! doubles, so that a table of any size serves a stream of any length.

use crate::bytes::eq_bytes;
use crate::wire::{le32, le64, read_word, word_at};
use vstd::prelude::*;

verus! {

pub const TYPE_DICT: u8 = 0x01;

pub const TYPE_ARRAY: u8 = 0x02;

pub const TYPE_SET: u8 = 0x03;

pub const TYPE_NUMBER: u8 = 0x04;

pub const TYPE_SYMBOL: u8 = 0x08;

pub const TYPE_STRING: u8 = 0x09;

pub const TYPE_DATA: u8 = 0x0a;

pub const TYPE_BOOLEAN: u8 = 0x0b;

pub const TYPE_OBJECT: u8 = 0x0c;

/// A decoded tag word.
#[derive(Clone, Copy, Debug, PartialEq, Eq, Structural)]
pub struct Tag {
    pub ty: u8,
    pub operand: u32,
}

/// An item of a stream, by the offset of its tag.
#[derive(Clone, Copy, Debug, PartialEq, Eq, Structural)]
pub struct Item {
    pub offset: u32,
}

/// The tag at `at`, if there is room for one.
pub open spec fn tag_at(s: Seq<u8>, at: nat) -> Option<Tag> {
    if at + 4 <= s.len() {
        Some(
            Tag {
                ty: (s[at as int + 3] % 128) as u8,
                operand: (word_at(s, at as int) % 0x100_0000) as u32,
            },
        )
    } else {
        None
    }
}

/// The bytes of an item without those of the items inside it, or `None` for
/// an unknown type.
pub open spec fn own_size(tag: Tag) -> Option<nat> {
    if tag.ty == TYPE_DICT || tag.ty == TYPE_ARRAY || tag.ty == TYPE_SET || tag.ty == TYPE_BOOLEAN
        || tag.ty == TYPE_OBJECT {
        Some(4)
    } else if tag.ty == TYPE_NUMBER {
        Some(12)
    } else if tag.ty == TYPE_SYMBOL || tag.ty == TYPE_STRING || tag.ty == TYPE_DATA {
        Some((4 + (tag.operand + 3) / 4 * 4) as nat)
    } else {
        None
    }
}

/// How many items lie directly inside an item.
pub open spec fn inner_items(tag: Tag) -> nat {
    if tag.ty == TYPE_DICT {
        2 * tag.operand as nat
    } else if tag.ty == TYPE_ARRAY || tag.ty == TYPE_SET {
        tag.operand as nat
    } else {
        0
    }
}

/// The item at `at` without what is inside it: its tag and its size, if the
/// type is known and the stream holds it all.
pub open spec fn shell_at(s: Seq<u8>, at: nat) -> Option<(Tag, nat)> {
    match tag_at(s, at) {
        None => None,
        Some(tag) => match own_size(tag) {
            None => None,
            Some(size) => if at + size <= s.len() {
                Some((tag, size))
            } else {
                None
            },
        },
    }
}

/// Where `n` items that start at `at` end, with all that is inside them.
pub open spec fn items_end(s: Seq<u8>, at: nat, n: nat) -> Option<nat>
    decreases s.len() - at,
{
    if n == 0 {
        Some(at)
    } else {
        match shell_at(s, at) {
            None => None,
            Some((tag, size)) => items_end(s, at + size, (n - 1 + inner_items(tag)) as nat),
        }
    }
}

/// The objects that `n` items at `at` emit, by offset, in stream order.
pub open spec fn emitted(s: Seq<u8>, at: nat, n: nat) -> Seq<nat>
    decreases s.len() - at,
{
    if n == 0 {
        Seq::empty()
    } else {
        match shell_at(s, at) {
            None => Seq::empty(),
            Some((tag, size)) => {
                let rest = emitted(s, at + size, (n - 1 + inner_items(tag)) as nat);
                if tag.ty == TYPE_OBJECT {
                    rest
                } else {
                    seq![at] + rest
                }
            },
        }
    }
}

/// Every back-reference in `n` items at `at` is to an object emitted before
/// it, `seen` of which come before `at`.
pub open spec fn refs_backward(s: Seq<u8>, at: nat, n: nat, seen: nat) -> bool
    decreases s.len() - at,
{
    if n == 0 {
        true
    } else {
        match shell_at(s, at) {
            None => true,
            Some((tag, size)) => {
                let rest = (n - 1 + inner_items(tag)) as nat;
                if tag.ty == TYPE_OBJECT {
                    tag.operand < seen && refs_backward(s, at + size, rest, seen)
                } else {
                    refs_backward(s, at + size, rest, seen + 1)
                }
            },
        }
    }
}

/// `s` is a magic and a whole item with sound back-references.
pub open spec fn well_formed(s: Seq<u8>) -> bool {
    &&& 8 <= s.len() < u32::MAX - 16
    &&& s[0] == 0xd3 && s[1] == 0 && s[2] == 0 && s[3] == 0
    &&& items_end(s, 4, 1) is Some
    &&& refs_backward(s, 4, 1, 0)
}

/// All objects of the stream.
pub open spec fn objects(s: Seq<u8>) -> Seq<nat> {
    emitted(s, 4, 1)
}

/// The offset of what the item at `at` stands for: itself, or the object that
/// it refers back to.
pub open spec fn target(s: Seq<u8>, at: nat) -> Option<nat> {
    match tag_at(s, at) {
        None => None,
        Some(tag) => if tag.ty == TYPE_OBJECT {
            if tag.operand < objects(s).len() {
                Some(objects(s)[tag.operand as int])
            } else {
                None
            }
        } else {
            Some(at)
        },
    }
}

/// The tag of what the item at `at` stands for, and the offset behind that tag.
pub open spec fn target_tag(s: Seq<u8>, at: nat) -> Option<(Tag, nat)> {
    match target(s, at) {
        None => None,
        Some(t) => match tag_at(s, t) {
            None => None,
            Some(tag) => Some((tag, t + 4)),
        },
    }
}

/// The `n` bytes at `at`, if the stream holds them.
pub open spec fn payload(s: Seq<u8>, at: nat, n: nat) -> Option<Seq<u8>> {
    if at + n <= s.len() {
        Some(s.subrange(at as int, (at + n) as int))
    } else {
        None
    }
}

/// The symbol that the item at `at` stands for, without the zero byte at its
/// end.
pub open spec fn symbol_at(s: Seq<u8>, at: nat) -> Option<Seq<u8>> {
    match target_tag(s, at) {
        Some((tag, body)) if tag.ty == TYPE_SYMBOL => payload(
            s,
            body,
            if tag.operand > 0 { (tag.operand - 1) as nat } else { 0 },
        ),
        _ => None,
    }
}

/// The string that the item at `at` stands for.
pub open spec fn string_at(s: Seq<u8>, at: nat) -> Option<Seq<u8>> {
    match target_tag(s, at) {
        Some((tag, body)) if tag.ty == TYPE_STRING => payload(s, body, tag.operand as nat),
        _ => None,
    }
}

/// The number that the item at `at` stands for: low word, then high word.
pub open spec fn number_at(s: Seq<u8>, at: nat) -> Option<u64> {
    match target_tag(s, at) {
        Some((tag, body)) if tag.ty == TYPE_NUMBER && body + 8 <= s.len() => Some(
            (word_at(s, body as int) + word_at(s, body as int + 4) * 0x1_0000_0000) as u64,
        ),
        _ => None,
    }
}

/// The truth value that the item at `at` stands for.
pub open spec fn bool_at(s: Seq<u8>, at: nat) -> Option<bool> {
    match target_tag(s, at) {
        Some((tag, body)) if tag.ty == TYPE_BOOLEAN => Some(tag.operand != 0),
        _ => None,
    }
}

/// The value of the first of `n` key/value pairs at `at` whose key is `key`.
pub open spec fn pair_value(s: Seq<u8>, at: nat, n: nat, key: Seq<u8>) -> Option<nat>
    decreases n,
{
    if n == 0 {
        None
    } else {
        match items_end(s, at, 1) {
            None => None,
            Some(value) => match items_end(s, value, 1) {
                None => None,
                Some(next) => if symbol_at(s, at) == Some(key) {
                    Some(value)
                } else {
                    pair_value(s, next, (n - 1) as nat, key)
                },
            },
        }
    }
}

/// The value under `key` in the dictionary that the item at `at` stands for.
pub open spec fn dict_value(s: Seq<u8>, at: nat, key: Seq<u8>) -> Option<nat> {
    match target_tag(s, at) {
        Some((tag, body)) if tag.ty == TYPE_DICT => pair_value(s, body, tag.operand as nat, key),
        _ => None,
    }
}

/// The first of `n` items at `at`, up to one that cannot be read.
pub open spec fn elements_from(s: Seq<u8>, at: nat, n: nat) -> Seq<nat>
    decreases n,
{
    if n == 0 {
        Seq::empty()
    } else {
        match items_end(s, at, 1) {
            None => Seq::empty(),
            Some(next) => seq![at] + elements_from(s, next, (n - 1) as nat),
        }
    }
}

/// Whether the item at `at` stands for an array or a set.
pub open spec fn is_list(s: Seq<u8>, at: nat) -> bool {
    match target_tag(s, at) {
        Some((tag, body)) => tag.ty == TYPE_ARRAY || tag.ty == TYPE_SET,
        _ => false,
    }
}

/// How many elements the array or set has that the item at `at` stands for.
pub open spec fn list_len(s: Seq<u8>, at: nat) -> nat {
    (target_tag(s, at)->0).0.operand as nat
}

/// The elements of the array or set that the item at `at` stands for.
pub open spec fn list_items(s: Seq<u8>, at: nat) -> Seq<nat> {
    if is_list(s, at) {
        elements_from(s, (target_tag(s, at)->0).1, list_len(s, at))
    } else {
        Seq::empty()
    }
}

/// A run of `m + n` items is a run of `m` items and behind it one of `n`.
pub proof fn law_items_split(s: Seq<u8>, at: nat, m: nat, n: nat)
    ensures
        items_end(s, at, m + n) == (match items_end(s, at, m) {
            None => None,
            Some(mid) => items_end(s, mid, n),
        }),
    decreases s.len() - at,
{
    if m > 0 {
        match shell_at(s, at) {
            None => {},
            Some((tag, size)) => {
                let rest = (m - 1 + inner_items(tag)) as nat;
                law_items_split(s, at + size, rest, n);
                assert((m + n - 1 + inner_items(tag)) as nat == rest + n);
            },
        }
    }
}

/// A container ends where the items inside it end.
pub proof fn law_container_holds_its_items(s: Seq<u8>, at: nat)
    requires
        shell_at(s, at) is Some,
        inner_items((shell_at(s, at)->0).0) > 0,
    ensures
        items_end(s, at, 1) == items_end(s, at + 4, inner_items((shell_at(s, at)->0).0)),
{
}

/// What `n` items that can be read hold can be read one by one.
pub proof fn law_readable_items_are_all_listed(s: Seq<u8>, at: nat, n: nat)
    requires
        items_end(s, at, n) is Some,
    ensures
        elements_from(s, at, n).len() == n,
    decreases n,
{
    if n > 0 {
        law_items_split(s, at, 1, (n - 1) as nat);
        let next = items_end(s, at, 1)->0;
        law_readable_items_are_all_listed(s, next, (n - 1) as nat);
    }
}

/// The outermost item of a well-formed stream is its first object.
pub proof fn law_root_is_first_object(s: Seq<u8>)
    requires
        well_formed(s),
    ensures
        objects(s).len() > 0,
        objects(s)[0] == 4,
{
}

/// `p` is where one of the items starts that `n` items at `at` consist of.
pub open spec fn holds_item(s: Seq<u8>, at: nat, n: nat, p: nat) -> bool
    decreases s.len() - at,
{
    n > 0 && match shell_at(s, at) {
        None => false,
        Some((tag, size)) => p == at || holds_item(
            s,
            at + size,
            (n - 1 + inner_items(tag)) as nat,
            p,
        ),
    }
}

proof fn lemma_refs_resolve(s: Seq<u8>, at: nat, n: nat, seen: nat, p: nat)
    requires
        refs_backward(s, at, n, seen),
        holds_item(s, at, n, p),
    ensures
        shell_at(s, p) is Some,
        (shell_at(s, p)->0).0.ty == TYPE_OBJECT ==> (shell_at(s, p)->0).0.operand < seen + emitted(
            s,
            at,
            n,
        ).len(),
    decreases s.len() - at,
{
    let (tag, size) = shell_at(s, at)->0;
    let rest = (n - 1 + inner_items(tag)) as nat;
    if p != at {
        lemma_refs_resolve(
            s,
            at + size,
            rest,
            if tag.ty == TYPE_OBJECT { seen } else { seen + 1 },
            p,
        );
    }
}

/// Every item of a well-formed stream stands for something.
pub proof fn law_refs_resolve(s: Seq<u8>, p: nat)
    requires
        well_formed(s),
        holds_item(s, 4, 1, p),
    ensures
        target(s, p) is Some,
{
    lemma_refs_resolve(s, 4, 1, 0, p);
}

/// Items end no later than the stream does, and behind where they start.
proof fn lemma_items_end_bound(s: Seq<u8>, at: nat, n: nat)
    requires
        at <= s.len(),
    ensures
        items_end(s, at, n) is Some ==> at <= items_end(s, at, n)->0 <= s.len(),
        items_end(s, at, n) is Some && n > 0 ==> at + 4 <= items_end(s, at, n)->0,
    decreases s.len() - at,
{
    if n > 0 {
        match shell_at(s, at) {
            None => {},
            Some((tag, size)) => {
                lemma_items_end_bound(s, at + size, (n - 1 + inner_items(tag)) as nat);
            },
        }
    }
}

/// The first offset from `at` on that holds no back-reference.
spec fn past_refs(s: Seq<u8>, at: nat) -> nat
    decreases s.len() - at,
{
    match tag_at(s, at) {
        Some(tag) if tag.ty == TYPE_OBJECT => past_refs(s, at + 4),
        _ => at,
    }
}

/// Each object can be stepped over to reach the next.
spec fn linked(s: Seq<u8>, objs: Seq<nat>) -> bool {
    forall|i: int|
        #![trigger objs[i]]
        0 <= i < objs.len() ==> {
            &&& shell_at(s, objs[i]) is Some
            &&& (shell_at(s, objs[i])->0).0.ty != TYPE_OBJECT
            &&& i + 1 < objs.len() ==> objs[i + 1] == past_refs(
                s,
                objs[i] + (shell_at(s, objs[i])->0).1,
            )
        }
}

proof fn lemma_emitted_linked(s: Seq<u8>, at: nat, n: nat)
    ensures
        linked(s, emitted(s, at, n)),
        emitted(s, at, n).len() > 0 ==> emitted(s, at, n)[0] == past_refs(s, at),
        at <= s.len() ==> 4 * emitted(s, at, n).len() + at <= s.len(),
    decreases s.len() - at,
{
    if n > 0 {
        match shell_at(s, at) {
            None => {},
            Some((tag, size)) => {
                let left = (n - 1 + inner_items(tag)) as nat;
                lemma_emitted_linked(s, at + size, left);
                let rest = emitted(s, at + size, left);
                if tag.ty != TYPE_OBJECT {
                    let all = emitted(s, at, n);
                    assert(all =~= seq![at] + rest);
                    assert forall|i: int|
                        #![trigger all[i]]
                        0 <= i < all.len() implies {
                        &&& shell_at(s, all[i]) is Some
                        &&& (shell_at(s, all[i])->0).0.ty != TYPE_OBJECT
                        &&& i + 1 < all.len() ==> all[i + 1] == past_refs(
                            s,
                            all[i] + (shell_at(s, all[i])->0).1,
                        )
                    } by {
                        if i > 0 {
                            assert(all[i] == rest[i - 1]);
                            if i + 1 < all.len() {
                                assert(all[i + 1] == rest[i]);
                            }
                        } else if all.len() > 1 {
                            assert(all[1] == rest[0]);
                        }
                    }
                }
            },
        }
    }
}

/// Reads the tag at `offset`.
pub fn read_tag(blob: &[u8], offset: u32) -> (r: Option<Tag>)
    ensures
        r == tag_at(blob@, offset as nat),
{
    let o: usize = offset as usize;
    if o > blob.len() || blob.len() - o < 4 {
        return None;
    }
    let ty: u8 = blob[o + 3] % 128;
    let operand: u32 = blob[o] as u32 + blob[o + 1] as u32 * 0x100 + blob[o + 2] as u32 * 0x1_0000;
    Some(Tag { ty, operand })
}

/// The bytes of an item without those of the items inside it.
fn scalar_step(tag: Tag) -> (r: Option<u32>)
    requires
        tag.operand < 0x100_0000,
    ensures
        match r {
            Some(size) => own_size(tag) == Some(size as nat),
            None => own_size(tag) is None,
        },
        r is Some ==> 4 <= r->0 <= 0x100_0004,
{
    if tag.ty == TYPE_DICT || tag.ty == TYPE_ARRAY || tag.ty == TYPE_SET || tag.ty == TYPE_BOOLEAN
        || tag.ty == TYPE_OBJECT {
        Some(4)
    } else if tag.ty == TYPE_NUMBER {
        Some(12)
    } else if tag.ty == TYPE_SYMBOL || tag.ty == TYPE_STRING || tag.ty == TYPE_DATA {
        Some(4 + (tag.operand + 3) / 4 * 4)
    } else {
        None
    }
}

/// How many items lie directly inside an item.
fn inner_count(tag: Tag) -> (r: u64)
    ensures
        r == inner_items(tag),
{
    if tag.ty == TYPE_DICT {
        2 * tag.operand as u64
    } else if tag.ty == TYPE_ARRAY || tag.ty == TYPE_SET {
        tag.operand as u64
    } else {
        0
    }
}

/// Reads the item at `at` without what is inside it.
fn read_shell(blob: &[u8], at: u32) -> (r: Option<(Tag, u32)>)
    requires
        blob@.len() < u32::MAX - 16,
    ensures
        match r {
            Some((tag, size)) => shell_at(blob@, at as nat) == Some((tag, size as nat)) && 4 <= size
                && at + size <= blob@.len() && tag.operand < 0x100_0000,
            None => shell_at(blob@, at as nat) is None,
        },
{
    match read_tag(blob, at) {
        None => None,
        Some(tag) => match scalar_step(tag) {
            None => None,
            Some(size) => {
                if blob.len() - at as usize >= size as usize {
                    Some((tag, size))
                } else {
                    None
                }
            },
        },
    }
}

/// Where the item at `start` ends, with all that is inside it.
fn walk(blob: &[u8], start: u32) -> (r: Option<u32>)
    requires
        blob@.len() < u32::MAX - 16,
    ensures
        match r {
            Some(end) => items_end(blob@, start as nat, 1) == Some(end as nat) && start + 4 <= end
                && end <= blob@.len(),
            None => items_end(blob@, start as nat, 1) is None,
        },
{
    if start as usize > blob.len() {
        return None;
    }
    proof {
        lemma_items_end_bound(blob@, start as nat, 1);
    }
    let mut cursor: u32 = start;
    let mut owed: u64 = 1;
    while owed > 0
        invariant
            blob@.len() < u32::MAX - 16,
            cursor <= blob@.len(),
            owed <= 1 + cursor * 0x200_0000,
            items_end(blob@, start as nat, 1) == items_end(blob@, cursor as nat, owed as nat),
        decreases blob@.len() - cursor, owed,
    {
        match read_shell(blob, cursor) {
            None => {
                return None;
            },
            Some((tag, size)) => {
                owed = owed - 1 + inner_count(tag);
                cursor = cursor + size;
            },
        }
    }
    Some(cursor)
}

/// A table of checkpoints being filled: `n` slots of a buffer hold the
/// offsets of the objects with numbers `0`, `stride`, `2 * stride` and so on.
struct Ckpts {
    n: usize,
    stride: u64,
}

/// `table` holds the offset of every `stride`-th of `objs`, and no other.
spec fn is_table(table: Seq<u32>, stride: int, objs: Seq<nat>) -> bool {
    &&& stride >= 1
    &&& objs.len() <= table.len() * stride
    &&& forall|i: int| 0 <= i < table.len() ==> #[trigger] is_entry(table, stride, objs, i)
}

/// The entry at `i` is the offset of object number `i * stride`.
spec fn is_entry(table: Seq<u32>, stride: int, objs: Seq<nat>, i: int) -> bool {
    i * stride < objs.len() && table[i] == objs[i * stride]
}

impl Ckpts {
    /// Notes that the next object, which is number `count`, lies at `offset`.
    fn record(&mut self, buf: &mut [u32], count: u32, offset: u32, Ghost(objs): Ghost<Seq<nat>>)
        requires
            old(buf)@.len() > 0,
            old(self).n <= old(buf)@.len(),
            count == objs.len(),
            is_table(old(buf)@.take(old(self).n as int), old(self).stride as int, objs),
            old(self).stride <= 1 + 2 * count,
        ensures
            final(buf)@.len() == old(buf)@.len(),
            final(self).n <= final(buf)@.len(),
            is_table(
                final(buf)@.take(final(self).n as int),
                final(self).stride as int,
                objs.push(offset as nat),
            ),
            final(self).stride <= 1 + 2 * (count + 1),
    {
        let ghost table = buf@.take(self.n as int);
        let ghost s = self.stride as int;
        let ghost n0 = self.n as int;
        if count as u64 % self.stride != 0 {
            proof {
                lemma_table_skips(table, s, objs, offset as nat);
            }
            return;
        }
        proof {
            lemma_table_full(table, s, objs);
        }
        if self.n == buf.len() {
            let half: usize = self.n - self.n / 2;
            let mut w: usize = 0;
            while w < half
                invariant
                    half == n0 - n0 / 2,
                    w <= half,
                    buf@.len() == n0,
                    table.len() == n0,
                    forall|i: int| 0 <= i < w ==> #[trigger] buf@[i] == table[2 * i],
                    forall|i: int| w <= i < n0 ==> #[trigger] buf@[i] == table[i],
                decreases half - w,
            {
                buf[w] = buf[2 * w];
                w = w + 1;
            }
            proof {
                lemma_table_halved(table, buf@.take(half as int), s, objs);
                assert(s <= count) by (nonlinear_arith)
                    requires
                        count == n0 * s,
                        n0 >= 1,
                        s >= 1,
                ;
            }
            self.n = half;
            self.stride = self.stride * 2;
            let ghost t2 = buf@.take(half as int);
            if count as u64 % self.stride != 0 {
                proof {
                    lemma_table_skips(t2, 2 * s, objs, offset as nat);
                }
                return;
            }
            proof {
                lemma_table_full(t2, 2 * s, objs);
                assert(half < n0) by (nonlinear_arith)
                    requires
                        half == n0 - n0 / 2,
                        n0 * s == half * (2 * s),
                        n0 >= 1,
                        s >= 1,
                ;
            }
        }
        let ghost t = buf@.take(self.n as int);
        buf[self.n] = offset;
        self.n = self.n + 1;
        proof {
            assert(buf@.take(self.n as int) =~= t.push(offset));
            lemma_table_grows(t, self.stride as int, objs, offset);
        }
    }
}

/// When the number of objects is a multiple of the stride, the next object
/// belongs at the end of the table.
proof fn lemma_table_full(table: Seq<u32>, stride: int, objs: Seq<nat>)
    requires
        is_table(table, stride, objs),
        objs.len() as int % stride == 0,
    ensures
        objs.len() == table.len() * stride,
{
    let q = objs.len() as int / stride;
    vstd::arithmetic::div_mod::lemma_fundamental_div_mod(objs.len() as int, stride);
    let n = table.len() as int;
    if n > 0 {
        assert(is_entry(table, stride, objs, n - 1));
        assert(q > n - 1) by (nonlinear_arith)
            requires
                (n - 1) * stride < stride * q,
                stride >= 1,
        ;
    }
    assert(q <= n) by (nonlinear_arith)
        requires
            stride * q <= n * stride,
            stride >= 1,
    ;
    assert(q >= 0) by (nonlinear_arith)
        requires
            stride * q >= 0,
            stride >= 1,
    ;
    assert(q == n);
    assert(stride * q == n * stride) by (nonlinear_arith)
        requires
            q == n,
    ;
}

/// When it is not, the table stays as it is.
proof fn lemma_table_skips(table: Seq<u32>, stride: int, objs: Seq<nat>, offset: nat)
    requires
        is_table(table, stride, objs),
        objs.len() as int % stride != 0,
    ensures
        is_table(table, stride, objs.push(offset)),
{
    let n = table.len() as int;
    if objs.len() == n * stride {
        vstd::arithmetic::div_mod::lemma_mod_multiples_basic(n, stride);
    }
    let all = objs.push(offset);
    assert forall|i: int| 0 <= i < n implies #[trigger] is_entry(table, stride, all, i) by {
        assert(is_entry(table, stride, objs, i));
        assert(0 <= i * stride) by (nonlinear_arith)
            requires
                0 <= i,
                stride >= 1,
        ;
    }
}

/// The next object goes behind the others.
proof fn lemma_table_grows(table: Seq<u32>, stride: int, objs: Seq<nat>, offset: u32)
    requires
        is_table(table, stride, objs),
        objs.len() == table.len() * stride,
    ensures
        is_table(table.push(offset), stride, objs.push(offset as nat)),
{
    let n = table.len() as int;
    let all = objs.push(offset as nat);
    let more = table.push(offset);
    assert((n + 1) * stride == n * stride + stride) by (nonlinear_arith);
    assert forall|i: int| 0 <= i < more.len() implies #[trigger] is_entry(more, stride, all, i) by {
        assert(0 <= i * stride) by (nonlinear_arith)
            requires
                0 <= i,
                stride >= 1,
        ;
        if i < n {
            assert(is_entry(table, stride, objs, i));
        }
    }
}

/// Every other entry of a table is a table for twice the stride.
proof fn lemma_table_halved(table: Seq<u32>, half: Seq<u32>, stride: int, objs: Seq<nat>)
    requires
        is_table(table, stride, objs),
        half.len() == table.len() - table.len() / 2,
        forall|i: int| 0 <= i < half.len() ==> #[trigger] half[i] == table[2 * i],
    ensures
        is_table(half, 2 * stride, objs),
{
    let n = table.len() as int;
    let h = half.len() as int;
    assert(n * stride <= h * (2 * stride)) by (nonlinear_arith)
        requires
            n <= 2 * h,
            stride >= 1,
    ;
    assert forall|i: int| 0 <= i < h implies #[trigger] is_entry(half, 2 * stride, objs, i) by {
        assert(is_entry(table, stride, objs, 2 * i));
        assert(i * (2 * stride) == (2 * i) * stride) by (nonlinear_arith);
    }
}

/// Walks the whole stream: notes the objects in `buf` and checks the
/// back-references. Returns the number of objects and the filled table's
/// size and stride.
fn walk_recording(blob: &[u8], buf: &mut [u32]) -> (r: Option<(u32, Ckpts)>)
    requires
        blob@.len() < u32::MAX - 16,
        blob@.len() >= 4,
        old(buf)@.len() > 0,
    ensures
        final(buf)@.len() == old(buf)@.len(),
        r is Some == (items_end(blob@, 4, 1) is Some && refs_backward(blob@, 4, 1, 0)),
        match r {
            Some((count, ck)) => count == objects(blob@).len() && ck.n <= final(buf)@.len()
                && is_table(final(buf)@.take(ck.n as int), ck.stride as int, objects(blob@)),
            None => true,
        },
{
    let mut ck = Ckpts { n: 0, stride: 1 };
    let mut cursor: u32 = 4;
    let mut owed: u64 = 1;
    let mut count: u32 = 0;
    let ghost mut seen: Seq<nat> = Seq::empty();
    assert(buf@.take(0) =~= Seq::empty());
    assert(seen + emitted(blob@, 4, 1) =~= emitted(blob@, 4, 1));
    while owed > 0
        invariant
            blob@.len() < u32::MAX - 16,
            4 <= cursor <= blob@.len(),
            owed <= 1 + cursor * 0x200_0000,
            4 * count + 4 <= cursor,
            count == seen.len(),
            buf@.len() == old(buf)@.len(),
            buf@.len() > 0,
            ck.n <= buf@.len(),
            ck.stride <= 1 + 2 * count,
            is_table(buf@.take(ck.n as int), ck.stride as int, seen),
            items_end(blob@, 4, 1) == items_end(blob@, cursor as nat, owed as nat),
            emitted(blob@, 4, 1) == seen + emitted(blob@, cursor as nat, owed as nat),
            refs_backward(blob@, 4, 1, 0) == refs_backward(
                blob@,
                cursor as nat,
                owed as nat,
                count as nat,
            ),
        decreases blob@.len() - cursor, owed,
    {
        match read_shell(blob, cursor) {
            None => {
                return None;
            },
            Some((tag, size)) => {
                if tag.ty == TYPE_OBJECT {
                    if tag.operand >= count {
                        return None;
                    }
                } else {
                    ck.record(buf, count, cursor, Ghost(seen));
                    count = count + 1;
                    proof {
                        let rest = emitted(
                            blob@,
                            (cursor + size) as nat,
                            (owed - 1 + inner_items(tag)) as nat,
                        );
                        assert(seen + (seq![cursor as nat] + rest) =~= seen.push(cursor as nat) + rest);
                        seen = seen.push(cursor as nat);
                    }
                }
                owed = owed - 1 + inner_count(tag);
                cursor = cursor + size;
            },
        }
    }
    assert(seen + emitted(blob@, cursor as nat, 0) =~= seen);
    Some((count, ck))
}

/// A decoded stream.
pub struct OsBinary<'a> {
    blob: &'a [u8],
    ckpts: &'a [u32],
    stride: u64,
    count: u32,
}

impl<'a> OsBinary<'a> {
    /// The stream's bytes.
    pub closed spec fn stream(&self) -> Seq<u8> {
        self.blob@
    }

    #[verifier::type_invariant]
    spec fn inv(self) -> bool {
        &&& well_formed(self.blob@)
        &&& self.count == objects(self.blob@).len()
        &&& is_table(self.ckpts@, self.stride as int, objects(self.blob@))
    }

    /// Checks `blob` and fills `ckpts_buf` with checkpoints. Any buffer that is
    /// not empty serves any stream.
    pub fn parse(blob: &'a [u8], ckpts_buf: &'a mut [u32]) -> (r: Option<OsBinary<'a>>)
        ensures
            r is Some == (well_formed(blob@) && old(ckpts_buf)@.len() > 0),
            r is Some ==> (r->0).stream() == blob@,
            final(ckpts_buf)@.len() == old(ckpts_buf)@.len(),
    {
        if blob.len() < 8 || blob[0] != 0xd3 || blob[1] != 0 || blob[2] != 0 || blob[3] != 0
            || ckpts_buf.len() == 0 {
            return None;
        }
        if blob.len() >= u32::MAX as usize - 16 {
            return None;
        }
        match walk_recording(blob, ckpts_buf) {
            None => None,
            Some((count, ck)) => {
                let ckpts: &'a [u32] = vstd::slice::slice_subrange(&*ckpts_buf, 0, ck.n);
                Some(OsBinary { blob, ckpts, stride: ck.stride, count })
            },
        }
    }

    /// The outermost item. A stream has one.
    pub fn root(&self) -> (r: Option<Item>)
        ensures
            well_formed(self.stream()),
            r == Some(Item { offset: 4 }),
    {
        proof {
            use_type_invariant(self);
            law_root_is_first_object(self.stream());
        }
        if self.count == 0 {
            return None;
        }
        Some(Item { offset: 4 })
    }

    /// The offset of object number `idx`.
    fn nth_object(&self, idx: u32) -> (r: Option<u32>)
        ensures
            match r {
                Some(at) => idx < objects(self.stream()).len() && at == objects(
                    self.stream(),
                )[idx as int] && at + 4 <= self.stream().len(),
                None => idx >= objects(self.stream()).len(),
            },
    {
        proof {
            use_type_invariant(self);
        }
        let ghost s = self.blob@;
        let ghost objs = objects(s);
        if idx >= self.count {
            return None;
        }
        let ck: u64 = idx as u64 / self.stride;
        proof {
            lemma_emitted_linked(s, 4, 1);
            vstd::arithmetic::div_mod::lemma_fundamental_div_mod(idx as int, self.stride as int);
            let n = self.ckpts@.len() as int;
            let st = self.stride as int;
            assert(ck < n) by (nonlinear_arith)
                requires
                    idx < n * st,
                    idx == st * ck + idx as int % st,
                    idx as int % st >= 0,
                    st >= 1,
            ;
            assert(ck * st <= idx) by (nonlinear_arith)
                requires
                    idx == st * ck + idx as int % st,
                    idx as int % st >= 0,
            ;
            assert(is_entry(self.ckpts@, st, objs, ck as int));
            assert(0 <= ck * st) by (nonlinear_arith)
                requires
                    st >= 1,
                    ck >= 0,
            ;
        }
        let mut offset: u32 = self.ckpts[ck as usize];
        let mut i: u32 = (ck * self.stride) as u32;
        assert(past_refs(s, offset as nat) == objs[i as int]) by {
            assert(shell_at(s, objs[i as int]) is Some);
        }
        loop
            invariant
                s == self.blob@,
                s == self.stream(),
                s.len() < u32::MAX - 16,
                objs == objects(s),
                linked(s, objs),
                i <= idx < objs.len(),
                offset <= s.len(),
                past_refs(s, offset as nat) == objs[i as int],
            decreases s.len() - offset,
        {
            assert(shell_at(s, objs[i as int]) is Some);
            match read_tag(self.blob, offset) {
                None => {
                    assert(false);
                    return None;
                },
                Some(tag) => {
                    if tag.ty == TYPE_OBJECT {
                        offset = offset + 4;
                    } else {
                        if i == idx {
                            return Some(offset);
                        }
                        match scalar_step(tag) {
                            None => {
                                assert(false);
                                return None;
                            },
                            Some(size) => {
                                assert(shell_at(s, objs[i + 1]) is Some);
                                i = i + 1;
                                offset = offset + size;
                            },
                        }
                    }
                },
            }
        }
    }

    /// The offset of what the item at `offset` stands for.
    fn resolve(&self, offset: u32) -> (r: Option<u32>)
        ensures
            match r {
                Some(at) => target(self.stream(), offset as nat) == Some(at as nat) && at + 4
                    <= self.stream().len(),
                None => target(self.stream(), offset as nat) is None,
            },
            self.stream().len() < u32::MAX - 16,
    {
        proof {
            use_type_invariant(self);
        }
        match read_tag(self.blob, offset) {
            None => None,
            Some(tag) => {
                if tag.ty == TYPE_OBJECT {
                    self.nth_object(tag.operand)
                } else {
                    Some(offset)
                }
            },
        }
    }

    /// The tag of what the item at `offset` stands for, and the offset behind
    /// that tag.
    fn resolve_tag(&self, offset: u32) -> (r: Option<(Tag, u32)>)
        ensures
            match r {
                Some((tag, body)) => target_tag(self.stream(), offset as nat) == Some(
                    (tag, body as nat),
                ) && body <= self.stream().len() && tag.operand < 0x100_0000,
                None => target_tag(self.stream(), offset as nat) is None,
            },
            self.stream().len() < u32::MAX - 16,
    {
        match self.resolve(offset) {
            None => None,
            Some(at) => match read_tag(self.blob, at) {
                None => None,
                Some(tag) => Some((tag, at + 4)),
            },
        }
    }

    /// How many bytes the item at `offset` takes, with all that is inside it.
    pub fn item_len(&self, offset: u32) -> (r: Option<u32>)
        ensures
            match r {
                Some(n) => items_end(self.stream(), offset as nat, 1) == Some((offset + n) as nat)
                    && 4 <= n && offset + n <= self.stream().len(),
                None => items_end(self.stream(), offset as nat, 1) is None,
            },
    {
        proof {
            use_type_invariant(self);
        }
        match walk(self.blob, offset) {
            None => None,
            Some(end) => Some(end - offset),
        }
    }

    /// The `n` bytes at `at`.
    fn slice_at(&self, at: u32, n: u32) -> (r: Option<&'a [u8]>)
        requires
            at <= self.stream().len(),
        ensures
            match r {
                Some(b) => payload(self.stream(), at as nat, n as nat) == Some(b@),
                None => payload(self.stream(), at as nat, n as nat) is None,
            },
    {
        let o: usize = at as usize;
        if self.blob.len() - o < n as usize {
            return None;
        }
        Some(vstd::slice::slice_subrange(self.blob, o, o + n as usize))
    }

    /// The symbol that the item at `offset` stands for, without the zero byte
    /// at its end.
    pub fn symbol_bytes(&self, offset: u32) -> (r: Option<&'a [u8]>)
        ensures
            match r {
                Some(b) => symbol_at(self.stream(), offset as nat) == Some(b@),
                None => symbol_at(self.stream(), offset as nat) is None,
            },
    {
        match self.resolve_tag(offset) {
            None => None,
            Some((tag, body)) => {
                if tag.ty != TYPE_SYMBOL {
                    return None;
                }
                let len: u32 = if tag.operand > 0 { tag.operand - 1 } else { 0 };
                self.slice_at(body, len)
            },
        }
    }

    /// The value of the first pair with the key `key` in a dictionary.
    pub fn find_dict(&self, dict: Item, key: &[u8]) -> (r: Option<Item>)
        ensures
            match r {
                Some(item) => dict_value(self.stream(), dict.offset as nat, key@) == Some(
                    item.offset as nat,
                ),
                None => dict_value(self.stream(), dict.offset as nat, key@) is None,
            },
    {
        let ghost s = self.stream();
        match self.resolve_tag(dict.offset) {
            None => None,
            Some((tag, body)) => {
                if tag.ty != TYPE_DICT {
                    return None;
                }
                let mut cursor: u32 = body;
                let mut left: u32 = tag.operand;
                while left > 0
                    invariant
                        s == self.stream(),
                        dict_value(s, dict.offset as nat, key@) == pair_value(
                            s,
                            cursor as nat,
                            left as nat,
                            key@,
                        ),
                        cursor <= s.len() < u32::MAX - 16,
                    decreases left,
                {
                    let key_at: u32 = cursor;
                    match self.item_len(key_at) {
                        None => {
                            return None;
                        },
                        Some(n) => {
                            cursor = cursor + n;
                        },
                    }
                    let value_at: u32 = cursor;
                    match self.item_len(value_at) {
                        None => {
                            return None;
                        },
                        Some(n) => {
                            cursor = cursor + n;
                        },
                    }
                    match self.symbol_bytes(key_at) {
                        Some(name) => {
                            if eq_bytes(name, key) {
                                return Some(Item { offset: value_at });
                            }
                        },
                        None => {},
                    }
                    left = left - 1;
                }
                None
            },
        }
    }

    /// The elements of an array or set, up to one that cannot be read, and
    /// whether that is all of them. `None` for any other item.
    pub fn array_items(&self, arr: Item) -> (r: Option<(Vec<Item>, bool)>)
        ensures
            r is Some == is_list(self.stream(), arr.offset as nat),
            r is Some ==> {
                let found = list_items(self.stream(), arr.offset as nat);
                &&& (r->0).0@.len() == found.len()
                &&& forall|i: int|
                    0 <= i < found.len() ==> (#[trigger] (r->0).0@[i]).offset == found[i]
                &&& (r->0).1 == (found.len() == list_len(self.stream(), arr.offset as nat))
            },
    {
        let ghost s = self.stream();
        match self.resolve_tag(arr.offset) {
            None => None,
            Some((tag, body)) => {
                if tag.ty != TYPE_ARRAY && tag.ty != TYPE_SET {
                    return None;
                }
                let mut items: Vec<Item> = Vec::new();
                let mut cursor: u32 = body;
                let mut left: u32 = tag.operand;
                let ghost found = elements_from(s, body as nat, tag.operand as nat);
                let ghost mut seen: Seq<nat> = Seq::empty();
                assert(seen + found =~= found);
                while left > 0
                    invariant
                        s == self.stream(),
                        cursor <= s.len() < u32::MAX - 16,
                        is_list(s, arr.offset as nat),
                        found == list_items(s, arr.offset as nat),
                        list_len(s, arr.offset as nat) == tag.operand,
                        found == seen + elements_from(s, cursor as nat, left as nat),
                        items@.len() == seen.len(),
                        items@.len() + left == tag.operand,
                        forall|i: int|
                            0 <= i < seen.len() ==> (#[trigger] items@[i]).offset == seen[i],
                    decreases left,
                {
                    match self.item_len(cursor) {
                        None => {
                            assert(found =~= seen);
                            return Some((items, false));
                        },
                        Some(n) => {
                            items.push(Item { offset: cursor });
                            proof {
                                let rest = elements_from(s, (cursor + n) as nat, (left - 1) as nat);
                                assert(seen + (seq![cursor as nat] + rest) =~= seen.push(
                                    cursor as nat,
                                ) + rest);
                                seen = seen.push(cursor as nat);
                            }
                            cursor = cursor + n;
                        },
                    }
                    left = left - 1;
                }
                assert(found =~= seen);
                Some((items, true))
            },
        }
    }

    /// Shows `f` each element of an array or set. `None` for any other item,
    /// and where an element cannot be read; `f` has then seen those before it.
    pub fn for_each_array<F: FnMut(Item)>(&self, arr: Item, f: F) -> (r: Option<()>)
        requires
            forall|item: Item| #[trigger] call_requires(f, (item,)),
        ensures
            r is Some == (is_list(self.stream(), arr.offset as nat) && list_items(
                self.stream(),
                arr.offset as nat,
            ).len() == list_len(self.stream(), arr.offset as nat)),
            forall|i: int|
                #![trigger list_items(self.stream(), arr.offset as nat)[i]]
                0 <= i < list_items(self.stream(), arr.offset as nat).len() ==> call_ensures(
                    f,
                    ((Item {
                        offset: list_items(self.stream(), arr.offset as nat)[i] as u32,
                    }),),
                    (),
                ),
    {
        let mut f = f;
        let ghost rule = f;
        match self.array_items(arr) {
            None => None,
            Some((items, all)) => {
                let n: usize = items.len();
                let mut i: usize = 0;
                while i < n
                    invariant
                        i <= n == items@.len(),
                        f == rule,
                        forall|item: Item| #[trigger] call_requires(rule, (item,)),
                        forall|j: int| 0 <= j < i ==> call_ensures(rule, (#[trigger] items@[j],), ()),
                    decreases n - i,
                {
                    f(items[i]);
                    i = i + 1;
                }
                proof {
                    let found = list_items(self.stream(), arr.offset as nat);
                    assert forall|i: int|
                        #![trigger found[i]]
                        0 <= i < found.len() implies call_ensures(
                        rule,
                        ((Item { offset: found[i] as u32 }),),
                        (),
                    ) by {
                        assert(items@[i] == (Item { offset: found[i] as u32 }));
                    }
                }
                if all {
                    Some(())
                } else {
                    None
                }
            },
        }
    }

    /// The number that `item` stands for.
    pub fn as_number(&self, item: Item) -> (r: Option<u64>)
        ensures
            r == number_at(self.stream(), item.offset as nat),
    {
        match self.resolve_tag(item.offset) {
            None => None,
            Some((tag, body)) => {
                let o: usize = body as usize;
                if tag.ty != TYPE_NUMBER || self.blob.len() - o < 8 {
                    return None;
                }
                let lo: u64 = read_word(self.blob, o) as u64;
                let hi: u64 = read_word(self.blob, o + 4) as u64;
                Some(hi * 0x1_0000_0000 + lo)
            },
        }
    }

    /// The string that `item` stands for.
    pub fn as_string(&self, item: Item) -> (r: Option<&'a [u8]>)
        ensures
            match r {
                Some(b) => string_at(self.stream(), item.offset as nat) == Some(b@),
                None => string_at(self.stream(), item.offset as nat) is None,
            },
    {
        match self.resolve_tag(item.offset) {
            None => None,
            Some((tag, body)) => {
                if tag.ty != TYPE_STRING {
                    return None;
                }
                self.slice_at(body, tag.operand)
            },
        }
    }

    /// The symbol that `item` stands for.
    pub fn as_symbol(&self, item: Item) -> (r: Option<&'a [u8]>)
        ensures
            match r {
                Some(b) => symbol_at(self.stream(), item.offset as nat) == Some(b@),
                None => symbol_at(self.stream(), item.offset as nat) is None,
            },
    {
        self.symbol_bytes(item.offset)
    }

    /// The truth value that `item` stands for.
    pub fn as_bool(&self, item: Item) -> (r: Option<bool>)
        ensures
            r == bool_at(self.stream(), item.offset as nat),
    {
        match self.resolve_tag(item.offset) {
            None => None,
            Some((tag, _)) => {
                if tag.ty != TYPE_BOOLEAN {
                    return None;
                }
                Some(tag.operand != 0)
            },
        }
    }
}

/// A tag word as it is written: its type, its operand, and the mark of the end
/// of a collection.
pub open spec fn tag_word(ty: u8, operand: u32, last: bool) -> Seq<u8> {
    let mark: int = if last {
        0x8000_0000
    } else {
        0
    };
    le32((operand + ty * 0x100_0000 + mark) as u32)
}

/// A written tag is read back, whether it ends a collection or not.
pub proof fn law_tag_is_read_back(before: Seq<u8>, ty: u8, operand: u32, last: bool, after: Seq<u8>)
    requires
        ty < 128,
        operand < 0x100_0000,
    ensures
        tag_at(before + tag_word(ty, operand, last) + after, before.len()) == Some(
            Tag { ty, operand },
        ),
{
    let mark: int = if last {
        0x8000_0000
    } else {
        0
    };
    let w = (operand + ty * 0x100_0000 + mark) as u32;
    let s = before + le32(w) + after;
    crate::wire::law_word_round_trip(before, w, after);
    assert(s[before.len() as int + 3] == le32(w)[3]);
    assert(w / 0x100_0000 == ty + mark / 0x100_0000);
    assert(w % 0x100_0000 == operand);
}

/// A written number is read back, and what follows it starts twelve bytes
/// behind its tag.
pub proof fn law_number_is_read_back(
    before: Seq<u8>,
    bits: u32,
    last: bool,
    n: u64,
    after: Seq<u8>,
)
    requires
        bits < 0x100_0000,
    ensures
        ({
            let s = before + tag_word(4, bits, last) + le64(n) + after;
            &&& number_at(s, before.len()) == Some(n)
            &&& items_end(s, before.len(), 1) == Some(before.len() + 12)
            &&& string_at(s, before.len()) is None
            &&& symbol_at(s, before.len()) is None
            &&& bool_at(s, before.len()) is None
        }),
{
    let tag = tag_word(4, bits, last);
    let s = before + tag + le64(n) + after;
    law_tag_is_read_back(before, 4, bits, last, le64(n) + after);
    assert(s =~= before + tag + (le64(n) + after));
    crate::wire::law_long_round_trip(before + tag, n, after);
    lemma_one_item(s, before.len());
}

/// The end of a single item with nothing inside it.
proof fn lemma_one_item(s: Seq<u8>, at: nat)
    ensures
        match shell_at(s, at) {
            Some((tag, size)) => inner_items(tag) == 0 ==> items_end(s, at, 1) == Some(at + size),
            None => items_end(s, at, 1) is None,
        },
{
    match shell_at(s, at) {
        Some((tag, size)) => {
            assert(inner_items(tag) == 0 ==> items_end(s, at + size, 0) == Some(at + size));
        },
        None => {},
    }
}

/// A written string is read back, and what follows it starts behind its bytes,
/// at a whole word.
pub proof fn law_string_is_read_back(
    before: Seq<u8>,
    last: bool,
    text: Seq<u8>,
    fill: Seq<u8>,
    after: Seq<u8>,
)
    requires
        text.len() < 0x100_0000,
        fill.len() < 4,
        (text.len() + fill.len()) % 4 == 0,
    ensures
        ({
            let s = before + tag_word(9, text.len() as u32, last) + text + fill + after;
            &&& string_at(s, before.len()) == Some(text)
            &&& items_end(s, before.len(), 1) == Some(
                before.len() + 4 + text.len() + fill.len(),
            )
            &&& number_at(s, before.len()) is None
            &&& symbol_at(s, before.len()) is None
            &&& bool_at(s, before.len()) is None
        }),
{
    let n = text.len() as u32;
    let tag = tag_word(9, n, last);
    let s = before + tag + text + fill + after;
    law_tag_is_read_back(before, 9, n, last, text + fill + after);
    assert(s =~= before + tag + (text + fill + after));
    let body = before.len() + 4;
    assert(s.subrange(body as int, body as int + text.len()) =~= text);
    lemma_one_item(s, before.len());
}

/// A written symbol is read back without its end mark.
pub proof fn law_symbol_is_read_back(
    before: Seq<u8>,
    last: bool,
    name: Seq<u8>,
    fill: Seq<u8>,
    after: Seq<u8>,
)
    requires
        name.len() + 1 < 0x100_0000,
        fill.len() < 4,
        (name.len() + 1 + fill.len()) % 4 == 0,
    ensures
        ({
            let s = before + tag_word(8, (name.len() + 1) as u32, last) + name + seq![0u8] + fill
                + after;
            &&& symbol_at(s, before.len()) == Some(name)
            &&& items_end(s, before.len(), 1) == Some(
                before.len() + 5 + name.len() + fill.len(),
            )
            &&& number_at(s, before.len()) is None
            &&& string_at(s, before.len()) is None
            &&& bool_at(s, before.len()) is None
        }),
{
    let n = (name.len() + 1) as u32;
    let tag = tag_word(8, n, last);
    let s = before + tag + name + seq![0u8] + fill + after;
    law_tag_is_read_back(before, 8, n, last, name + seq![0u8] + fill + after);
    assert(s =~= before + tag + (name + seq![0u8] + fill + after));
    let body = before.len() + 4;
    assert(s.subrange(body as int, body as int + name.len()) =~= name);
    lemma_one_item(s, before.len());
}

/// A written truth value is read back.
pub proof fn law_bool_is_read_back(before: Seq<u8>, last: bool, b: bool, after: Seq<u8>)
    ensures
        ({
            let s = before + tag_word(11, if b { 1 } else { 0 }, last) + after;
            &&& bool_at(s, before.len()) == Some(b)
            &&& items_end(s, before.len(), 1) == Some(before.len() + 4)
            &&& number_at(s, before.len()) is None
            &&& string_at(s, before.len()) is None
            &&& symbol_at(s, before.len()) is None
        }),
{
    let n: u32 = if b { 1 } else { 0 };
    law_tag_is_read_back(before, 11, n, last, after);
    lemma_one_item(before + tag_word(11, n, last) + after, before.len());
}

/// A back-reference stands for the object whose number it holds: it is read as
/// that object is, if that is none itself.
pub proof fn law_reference_reads_as_its_object(s: Seq<u8>, at: nat)
    requires
        tag_at(s, at) matches Some(tag) && tag.ty == 12 && tag.operand < objects(s).len(),
        tag_at(s, objects(s)[(tag_at(s, at)->0).operand as int]) matches Some(tag) && tag.ty != 12,
    ensures
        ({
            let to = objects(s)[(tag_at(s, at)->0).operand as int];
            &&& number_at(s, at) == number_at(s, to)
            &&& string_at(s, at) == string_at(s, to)
            &&& symbol_at(s, at) == symbol_at(s, to)
            &&& bool_at(s, at) == bool_at(s, to)
            &&& list_items(s, at) == list_items(s, to)
            &&& forall|key: Seq<u8>| #[trigger] dict_value(s, at, key) == dict_value(s, to, key)
        }),
{
}

/// The value under a key is the item behind the first symbol with that name:
/// of the pairs of a dictionary at `at`, the one number `i`.
pub proof fn law_value_stands_behind_its_key(s: Seq<u8>, at: nat, key: Seq<u8>, i: nat)
    requires
        tag_at(s, at) matches Some(tag) && tag.ty == 1 && i < tag.operand,
        items_end(s, at + 4, 2 * i + 2) is Some,
        forall|j: nat|
            j < i ==> symbol_at(s, (#[trigger] items_end(s, at + 4, 2 * j))->0) != Some(key),
        symbol_at(s, items_end(s, at + 4, 2 * i)->0) == Some(key),
    ensures
        dict_value(s, at, key) == items_end(s, at + 4, 2 * i + 1),
{
    lemma_pair_value(s, at + 4, (tag_at(s, at)->0).operand as nat, key, i);
}

proof fn lemma_pair_value(s: Seq<u8>, at: nat, n: nat, key: Seq<u8>, i: nat)
    requires
        i < n,
        items_end(s, at, 2 * i + 2) is Some,
        forall|j: nat|
            j < i ==> symbol_at(s, (#[trigger] items_end(s, at, 2 * j))->0) != Some(key),
        symbol_at(s, items_end(s, at, 2 * i)->0) == Some(key),
    ensures
        pair_value(s, at, n, key) == items_end(s, at, 2 * i + 1),
    decreases i,
{
    law_items_split(s, at, 1, 2 * i + 1);
    assert(items_end(s, at, 1) is Some);
    let value = items_end(s, at, 1)->0;
    law_items_split(s, value, 1, 2 * i);
    let next = items_end(s, value, 1)->0;
    if i == 0 {
        assert(items_end(s, at, 0) == Some(at));
    } else {
        assert(items_end(s, at, 2 * 0) == Some(at));
        assert(symbol_at(s, at) != Some(key));
        law_items_split(s, at, 1, 1);
        assert(items_end(s, at, 2) == Some(next));
        assert forall|j: nat| j < i implies items_end(s, at, 2 * j + 2) == #[trigger] items_end(
            s,
            next,
            2 * j,
        ) by {
            law_items_split(s, at, 2, 2 * j);
        }
        law_items_split(s, at, 2, 2 * i);
        law_items_split(s, at, 2, (2 * i - 2) as nat);
        law_items_split(s, at, 2, (2 * i - 1) as nat);
        let k = (i - 1) as nat;
        assert forall|j: nat| j < k implies symbol_at(s, (#[trigger] items_end(s, next, 2 * j))->0)
            != Some(key) by {
            let m = j + 1;
            assert(items_end(s, at, 2 * m) == items_end(s, next, 2 * j));
        }
        assert(2 * k + 2 == 2 * i && 2 * k == 2 * i - 2 && 2 * k + 1 == 2 * i - 1);
        lemma_pair_value(s, next, (n - 1) as nat, key, k);
    }
}

/// The elements of a list that can be read stand one behind the other, from
/// behind its tag on, and are as many as it says.
pub proof fn law_elements_stand_in_order(s: Seq<u8>, at: nat, i: nat)
    requires
        tag_at(s, at) matches Some(tag) && (tag.ty == 2 || tag.ty == 3) && i < tag.operand
            && items_end(s, at + 4, tag.operand as nat) is Some,
    ensures
        list_items(s, at).len() == (tag_at(s, at)->0).operand,
        Some(list_items(s, at)[i as int]) == items_end(s, at + 4, i),
{
    lemma_elements(s, at + 4, (tag_at(s, at)->0).operand as nat, i);
}

proof fn lemma_elements(s: Seq<u8>, at: nat, n: nat, i: nat)
    requires
        i < n,
        items_end(s, at, n) is Some,
    ensures
        elements_from(s, at, n).len() == n,
        Some(elements_from(s, at, n)[i as int]) == items_end(s, at, i),
    decreases n,
{
    law_items_split(s, at, 1, (n - 1) as nat);
    let next = items_end(s, at, 1)->0;
    let rest = elements_from(s, next, (n - 1) as nat);
    if n > 1 {
        lemma_elements(
            s,
            next,
            (n - 1) as nat,
            if i > 0 {
                (i - 1) as nat
            } else {
                0
            },
        );
    }
    if i > 0 {
        law_items_split(s, at, 1, (i - 1) as nat);
        assert(elements_from(s, at, n)[i as int] == rest[i - 1]);
    } else {
        assert(items_end(s, at, 0) == Some(at));
    }
}

/// The number of an object is how many items before it are no back-references.
pub proof fn law_objects_are_counted(s: Seq<u8>, at: nat, n: nat)
    requires
        n > 0,
        shell_at(s, at) is Some,
    ensures
        ({
            let (tag, size) = shell_at(s, at)->0;
            let rest = emitted(s, at + size, (n - 1 + inner_items(tag)) as nat);
            &&& tag.ty == 12 ==> emitted(s, at, n) == rest
            &&& tag.ty != 12 ==> emitted(s, at, n) == seq![at] + rest
        }),
{
}

} // verus!
