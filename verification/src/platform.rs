//! Clock readings, directory records, and what differs between systems.

use vstd::prelude::*;

verus! {

/// The system that the monitor runs on.
#[derive(Clone, Copy, Debug, PartialEq, Eq, Structural)]
pub enum Platform {
    Linux,
    Mac,
}

/// A reading of the monotonic clock, in nanoseconds.
#[derive(Clone, Copy, Debug)]
pub struct Instant {
    ns: u64,
}

impl Instant {
    /// Nanoseconds since the clock's start.
    pub closed spec fn view(&self) -> nat {
        self.ns as nat
    }

    /// The instant of a clock that reads `sec` seconds and `nsec` nanoseconds.
    pub fn now(sec: i64, nsec: i64) -> (r: Instant)
        requires
            0 <= sec,
            0 <= nsec,
            sec * 1_000_000_000 + nsec <= u64::MAX,
        ensures
            r@ == sec * 1_000_000_000 + nsec,
    {
        Instant { ns: sec as u64 * 1_000_000_000 + nsec as u64 }
    }

    /// The nanoseconds since `earlier`, or 0 if `earlier` is later.
    pub fn duration_since(&self, earlier: Instant) -> (r: u64)
        ensures
            r == (if self@ >= earlier@ { self@ - earlier@ } else { 0 }),
    {
        self.ns.saturating_sub(earlier.ns)
    }
}

/// Seconds and nanoseconds of a pause of `ms` milliseconds.
pub fn sleep(ms: u64) -> (r: (i64, i64))
    ensures
        r.0 * 1000 + r.1 / 1_000_000 == ms,
        0 <= r.1 < 1_000_000_000,
        r.1 % 1_000_000 == 0,
{
    ((ms / 1000) as i64, (ms % 1000) as i64 * 1_000_000)
}

/// Bytes that a directory reader asks for at a time.
pub const DIRENT_BUF_BYTES: usize = 4096;

/// Where a directory record holds its own length.
pub const DIRENT_RECLEN_OFFSET: usize = 16;

/// Where a directory record holds the entry's name.
pub const DIRENT_NAME_OFFSET: usize = 19;

/// The length of the directory record at `at`.
pub open spec fn record_len(buf: Seq<u8>, at: int) -> int {
    buf[at + DIRENT_RECLEN_OFFSET] + buf[at + DIRENT_RECLEN_OFFSET + 1] * 0x100
}

/// The bytes from `at` up to the next zero byte, or up to the end.
pub open spec fn name_at(buf: Seq<u8>, at: int) -> Seq<u8>
    decreases buf.len() - at,
{
    if at < 0 || at >= buf.len() || buf[at] == 0 {
        Seq::empty()
    } else {
        seq![buf[at]] + name_at(buf, at + 1)
    }
}

/// `s` is not empty and all digits.
pub open spec fn all_digits(s: Seq<u8>) -> bool {
    &&& s.len() > 0
    &&& forall|i: int| 0 <= i < s.len() ==> 0x30 <= #[trigger] s[i] <= 0x39
}

/// The number that the digits of `s` write.
pub open spec fn digits_value(s: Seq<u8>) -> nat
    decreases s.len(),
{
    if s.len() == 0 {
        0
    } else {
        digits_value(s.drop_last()) * 10 + (s.last() - 0x30) as nat
    }
}

/// The directory records in `buf` from `at` on are whole: each says its own
/// length, and that is enough for its fixed part.
pub open spec fn records_ok(buf: Seq<u8>, at: int) -> bool
    decreases buf.len() - at,
{
    0 <= at && (at >= buf.len() || {
        &&& at + DIRENT_NAME_OFFSET <= buf.len()
        &&& record_len(buf, at) >= DIRENT_NAME_OFFSET
        &&& at + record_len(buf, at) <= buf.len()
        &&& records_ok(buf, at + record_len(buf, at))
    })
}

/// The numbers among the names of the records in `buf` from `at` on. A number
/// too large for 32 bits loses its upper part.
pub open spec fn pids_from(buf: Seq<u8>, at: int) -> Seq<u32>
    decreases buf.len() - at,
{
    if at < 0 || at >= buf.len() || record_len(buf, at) < DIRENT_NAME_OFFSET || at + record_len(
        buf,
        at,
    ) > buf.len() {
        Seq::empty()
    } else {
        let rest = pids_from(buf, at + record_len(buf, at));
        let name = name_at(buf, at + DIRENT_NAME_OFFSET);
        if all_digits(name) {
            seq![(digits_value(name) % 0x1_0000_0000) as u32] + rest
        } else {
            rest
        }
    }
}

/// Reads the directory records of one batch.
pub struct PidDir<'a> {
    fd: i32,
    pos: usize,
    buf: &'a [u8],
}

/// Reads the name at `start` as a number modulo 2^32, if it is one.
fn numeric_name(buf: &[u8], start: usize) -> (r: Option<u32>)
    requires
        start <= buf@.len(),
    ensures
        r == (if all_digits(name_at(buf@, start as int)) {
            Some((digits_value(name_at(buf@, start as int)) % 0x1_0000_0000) as u32)
        } else {
            None
        }),
{
    let ghost name = name_at(buf@, start as int);
    let ghost mut seen: Seq<u8> = Seq::empty();
    let mut pid: u32 = 0;
    let mut i: usize = start;
    assert(seen + name =~= name);
    while i < buf.len() && buf[i] != 0
        invariant
            start <= i <= buf@.len(),
            name == name_at(buf@, start as int),
            name == seen + name_at(buf@, i as int),
            seen.len() == i - start,
            forall|k: int| 0 <= k < seen.len() ==> 0x30 <= #[trigger] seen[k] <= 0x39,
            pid as nat == digits_value(seen) % 0x1_0000_0000,
        decreases buf@.len() - i,
    {
        let b: u8 = buf[i];
        let ghost rest = name_at(buf@, i + 1);
        assert(name_at(buf@, i as int) == seq![b] + rest);
        assert(seen + (seq![b] + rest) =~= seen.push(b) + rest);
        if b < 0x30 || b > 0x39 {
            assert(name[seen.len() as int] == b);
            return None;
        }
        let next: u64 = (pid as u64 * 10 + (b - 0x30) as u64) % 0x1_0000_0000;
        proof {
            let v = digits_value(seen) as int;
            assert(seen.push(b).drop_last() =~= seen);
            assert((v * 10 + (b - 0x30)) % 0x1_0000_0000 == ((v % 0x1_0000_0000) * 10 + (b - 0x30))
                % 0x1_0000_0000) by (nonlinear_arith);
            seen = seen.push(b);
        }
        pid = next as u32;
        i = i + 1;
    }
    assert(name_at(buf@, i as int) =~= Seq::empty());
    assert(name =~= seen);
    if i == start {
        None
    } else {
        Some(pid)
    }
}

impl<'a> PidDir<'a> {
    /// The numbers still to come.
    pub closed spec fn remaining(&self) -> Seq<u32> {
        pids_from(self.buf@, self.pos as int)
    }

    /// The descriptor that the records came from.
    pub closed spec fn descriptor(&self) -> i32 {
        self.fd
    }

    #[verifier::type_invariant]
    spec fn inv(self) -> bool {
        records_ok(self.buf@, self.pos as int)
    }

    /// A reader of the batch `buf` that was read from `fd`.
    pub fn open(fd: i32, buf: &'a [u8]) -> (r: PidDir<'a>)
        requires
            records_ok(buf@, 0),
        ensures
            r.remaining() == pids_from(buf@, 0),
            r.descriptor() == fd,
    {
        PidDir { fd, pos: 0, buf }
    }

    /// The descriptor that the records came from.
    pub fn fd(&self) -> (r: i32)
        ensures
            r == self.descriptor(),
    {
        self.fd
    }

    /// The next entry whose name is a number; `None` at the end of the batch.
    pub fn next(&mut self) -> (r: Option<u32>)
        ensures
            final(self).descriptor() == old(self).descriptor(),
            old(self).remaining().len() == 0 ==> r is None && final(self).remaining().len() == 0,
            old(self).remaining().len() > 0 ==> r == Some(old(self).remaining()[0])
                && final(self).remaining() == old(self).remaining().skip(1),
    {
        proof {
            use_type_invariant(&*self);
        }
        let buf: &'a [u8] = self.buf;
        let ghost all = pids_from(buf@, self.pos as int);
        let mut at: usize = self.pos;
        while at < buf.len()
            invariant
                records_ok(buf@, at as int),
                all == pids_from(buf@, at as int),
                all == old(self).remaining(),
                *self == *old(self),
                self.buf == buf,
            decreases buf@.len() - at,
        {
            let len: usize = buf[at + DIRENT_RECLEN_OFFSET] as usize + buf[at
                + DIRENT_RECLEN_OFFSET + 1] as usize * 0x100;
            let found = numeric_name(buf, at + DIRENT_NAME_OFFSET);
            at = at + len;
            match found {
                Some(pid) => {
                    assert(all.skip(1) =~= pids_from(buf@, at as int));
                    self.pos = at;
                    return Some(pid);
                },
                None => {},
            }
        }
        self.pos = at;
        None
    }
}

/// Whether the records of a batch are whole; a batch that is not is not read.
pub fn records_whole(buf: &[u8]) -> (r: bool)
    ensures
        r == records_ok(buf@, 0),
{
    let mut at: usize = 0;
    while at < buf.len()
        invariant
            at <= buf@.len(),
            records_ok(buf@, 0) == records_ok(buf@, at as int),
        decreases buf@.len() - at,
    {
        if buf.len() - at < DIRENT_NAME_OFFSET {
            return false;
        }
        let len: usize = buf[at + DIRENT_RECLEN_OFFSET] as usize + buf[at + DIRENT_RECLEN_OFFSET
            + 1] as usize * 0x100;
        if len < DIRENT_NAME_OFFSET || len > buf.len() - at {
            return false;
        }
        at = at + len;
    }
    true
}

/// The bytes of each argument.
pub open spec fn arg_bytes(args: Seq<Vec<u8>>) -> Seq<Seq<u8>> {
    args.map_values(|a: Vec<u8>| a@)
}

/// Whether `flag` stands among the arguments behind the first.
pub open spec fn flag_given(args: Seq<Seq<u8>>, flag: Seq<u8>) -> bool {
    exists|i: int| 1 <= i < args.len() && #[trigger] args[i] == flag
}

/// Whether `flag` stands among the arguments behind the first.
pub fn has_arg(args: &Vec<Vec<u8>>, flag: &[u8]) -> (r: bool)
    ensures
        r == flag_given(arg_bytes(args@), flag@),
{
    let ghost all = arg_bytes(args@);
    let n: usize = args.len();
    let mut i: usize = 1;
    while i < n
        invariant
            1 <= i,
            n == args@.len(),
            all == arg_bytes(args@),
            forall|j: int| 1 <= j < i && j < n ==> #[trigger] all[j] != flag@,
        decreases n - i,
    {
        if crate::bytes::eq_bytes(args[i].as_slice(), flag) {
            assert(all[i as int] == flag@);
            return true;
        }
        assert(all[i as int] != flag@);
        i = i + 1;
    }
    false
}

/// How many bits of `w` are set.
pub open spec fn bits_set(w: u64) -> nat
    decreases w,
{
    if w == 0 {
        0
    } else {
        (w % 2) as nat + bits_set(w / 2)
    }
}

/// How many bits are set in the first `n` words.
pub open spec fn all_bits_set(ws: Seq<u64>, n: nat) -> nat
    decreases n,
{
    if n == 0 {
        0
    } else {
        all_bits_set(ws, (n - 1) as nat) + bits_set(ws[n - 1])
    }
}

proof fn lemma_bits_bounded(w: u64, k: nat)
    requires
        w < vstd::arithmetic::power2::pow2(k),
    ensures
        bits_set(w) <= k,
    decreases k,
{
    if k == 0 {
        vstd::arithmetic::power2::lemma2_to64();
    } else if w > 0 {
        vstd::arithmetic::power2::lemma_pow2_unfold(k);
        lemma_bits_bounded(w / 2, (k - 1) as nat);
    }
}

/// How many bits of `w` are set.
fn count_bits(w: u64) -> (r: u32)
    ensures
        r == bits_set(w),
        r <= 64,
{
    let mut rest: u64 = w;
    let mut n: u32 = 0;
    proof {
        vstd::arithmetic::power2::lemma2_to64_rest();
        lemma_bits_bounded(w, 64);
    }
    while rest > 0
        invariant
            n + bits_set(rest) == bits_set(w),
            bits_set(w) <= 64,
        decreases rest,
    {
        n = n + (rest % 2) as u32;
        rest = rest / 2;
    }
    n
}

/// How many processors there are, by the set that the kernel filled: at least
/// one.
pub fn num_cpus_online(ret: i64, set: &[u64]) -> (r: u32)
    requires
        set@.len() <= 1024,
    ensures
        r == (if ret > 0 && all_bits_set(set@, set@.len()) > 0 {
            all_bits_set(set@, set@.len())
        } else {
            1
        }),
{
    if ret <= 0 {
        return 1;
    }
    let mut n: u32 = 0;
    for i in 0..set.len()
        invariant
            set@.len() <= 1024,
            n == all_bits_set(set@, i as nat),
            n <= 64 * i,
    {
        n = n + count_bits(set[i]);
    }
    if n > 0 {
        n
    } else {
        1
    }
}

/// The text of a small file, when opening it gave `fd` and one read filled `n`
/// bytes of `buf`.
pub fn read_small_file<'a>(fd: i32, buf: &'a [u8], n: i64) -> (r: Option<&'a [u8]>)
    requires
        n <= buf@.len(),
    ensures
        match r {
            Some(text) => fd >= 0 && n > 0 && text@ == buf@.take(n as int),
            None => fd < 0 || n <= 0,
        },
{
    if fd < 0 || n <= 0 {
        return None;
    }
    let room: usize = buf.len();
    assert(n <= room);
    let text: &'a [u8] = vstd::slice::slice_subrange(buf, 0, n as usize);
    assert(text@ =~= buf@.take(n as int));
    Some(text)
}

/// A directory record: its fixed part with its length, its type, the name with
/// an end mark, and what fills it up.
pub open spec fn record(head: Seq<u8>, kind: u8, name: Seq<u8>, fill: Seq<u8>) -> Seq<u8> {
    let len = head.len() + 2 + 1 + name.len() + 1 + fill.len();
    head + seq![(len % 0x100) as u8, (len / 0x100) as u8] + seq![kind] + name + seq![0u8] + fill
}

/// Records are read one by one: one whose name is a process's number gives that
/// number, one with a letter in its name gives none, and what follows is read
/// as it would be alone, if its records are whole.
pub proof fn law_records_are_read_one_by_one(
    head: Seq<u8>,
    kind: u8,
    name: Seq<u8>,
    fill: Seq<u8>,
    rest: Seq<u8>,
    pid: u32,
    i: int,
)
    requires
        head.len() == 16,
        20 + name.len() + fill.len() <= 0xffff,
        forall|k: int| 0 <= k < name.len() ==> #[trigger] name[k] != 0,
    ensures
        ({
            let buf = record(head, kind, name, fill) + rest;
            &&& records_ok(buf, 0) <==> records_ok(rest, 0)
            &&& records_ok(rest, 0) && name == crate::twrite::decimal(pid as nat) ==> pids_from(
                buf,
                0,
            ) == seq![pid] + pids_from(rest, 0)
            &&& records_ok(rest, 0) && 0 <= i < name.len() && !(0x30 <= name[i] <= 0x39)
                ==> pids_from(buf, 0) == pids_from(rest, 0)
        }),
{
    let rec = record(head, kind, name, fill);
    let buf = rec + rest;
    let n = rec.len() as int;
    assert(n == 20 + name.len() + fill.len());
    assert(buf[16] == (n % 0x100) as u8 && buf[17] == (n / 0x100) as u8);
    assert(record_len(buf, 0) == n);
    assert forall|k: int| 0 <= k < name.len() implies #[trigger] buf[19 + k] == name[k] by {}
    assert(buf[name.len() as int + 19] == 0);
    lemma_name_at(buf, 19, name);
    lemma_records_behind(rec, rest, 0);
    if name == crate::twrite::decimal(pid as nat) {
        crate::procfs::lemma_decimal_value(pid as nat);
    }
}

proof fn lemma_name_at(buf: Seq<u8>, at: int, name: Seq<u8>)
    requires
        0 <= at,
        at + name.len() < buf.len(),
        forall|k: int| 0 <= k < name.len() ==> #[trigger] name[k] != 0,
        forall|k: int| 0 <= k < name.len() ==> #[trigger] buf[at + k] == name[k],
        buf[at + name.len()] == 0,
    ensures
        name_at(buf, at) == name,
    decreases name.len(),
{
    if name.len() > 0 {
        assert(buf[at + 0] == name[0]);
        let less = name.skip(1);
        assert forall|k: int| 0 <= k < less.len() implies #[trigger] buf[at + 1 + k] == less[k] by {
            assert(buf[at + (k + 1)] == name[k + 1]);
        }
        lemma_name_at(buf, at + 1, less);
        assert(seq![name[0]] + less =~= name);
    }
}

/// What stands before a name does not change it.
proof fn lemma_name_behind(before: Seq<u8>, rest: Seq<u8>, at: int)
    requires
        0 <= at,
    ensures
        name_at(before + rest, before.len() + at) == name_at(rest, at),
    decreases rest.len() - at,
{
    if at < rest.len() && rest[at] != 0 {
        lemma_name_behind(before, rest, at + 1);
    }
}

/// What stands before records does not change them.
proof fn lemma_records_behind(before: Seq<u8>, rest: Seq<u8>, at: int)
    requires
        0 <= at,
    ensures
        records_ok(before + rest, before.len() + at) == records_ok(rest, at),
        records_ok(rest, at) ==> pids_from(before + rest, before.len() + at) == pids_from(rest, at),
    decreases rest.len() - at,
{
    let all = before + rest;
    let to = before.len() + at;
    if at + DIRENT_NAME_OFFSET <= rest.len() {
        assert(all[to + 16] == rest[at + 16] && all[to + 17] == rest[at + 17]);
        if record_len(rest, at) >= DIRENT_NAME_OFFSET && at + record_len(rest, at) <= rest.len() {
            lemma_records_behind(before, rest, at + record_len(rest, at));
            lemma_name_behind(before, rest, at + DIRENT_NAME_OFFSET);
        }
    }
}

/// A bit that stands above all others counts as one more.
pub proof fn law_each_bit_counts(w: u64, k: nat)
    requires
        k < 64,
        w < vstd::arithmetic::power2::pow2(k),
    ensures
        w + vstd::arithmetic::power2::pow2(k) <= u64::MAX,
        bits_set((w + vstd::arithmetic::power2::pow2(k)) as u64) == bits_set(w) + 1,
        bits_set(0) == 0,
    decreases k,
{
    vstd::arithmetic::power2::lemma2_to64();
    vstd::arithmetic::power2::lemma2_to64_rest();
    if k == 0 {
        assert(bits_set(1) == 1) by {
            reveal_with_fuel(bits_set, 2);
        }
    } else {
        vstd::arithmetic::power2::lemma_pow2_unfold(k);
        if k < 63 {
            vstd::arithmetic::power2::lemma_pow2_strictly_increases(k, 63);
        }
        let p = vstd::arithmetic::power2::pow2((k - 1) as nat);
        law_each_bit_counts(w / 2, (k - 1) as nat);
        let all = (w + 2 * p) as u64;
        assert(all / 2 == w / 2 + p);
        assert(all % 2 == w % 2);
    }
}

/// A flag is given if it stands anywhere behind the program's name, and the
/// program's name itself is no flag.
pub proof fn law_flags_stand_behind_the_name(
    name: Seq<u8>,
    before: Seq<Seq<u8>>,
    flag: Seq<u8>,
    behind: Seq<Seq<u8>>,
)
    ensures
        flag_given(seq![name] + before + seq![flag] + behind, flag),
        !flag_given(seq![flag], flag),
        !before.contains(flag) ==> !flag_given(seq![name] + before, flag),
{
    let args = seq![name] + before + seq![flag] + behind;
    assert(args[before.len() as int + 1] == flag);
    let fewer = seq![name] + before;
    if flag_given(fewer, flag) {
        let i = choose|i: int| 1 <= i < fewer.len() && #[trigger] fewer[i] == flag;
        assert(before[i - 1] == flag);
    }
}

} // verus!
