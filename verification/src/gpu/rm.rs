//! The NVIDIA kernel driver's resource manager: the messages of its control
//! calls, the order of the calls that open it, and what its readings amount
//! to.
//!
//! Every message is a fixed run of little-endian fields. The sizes are those
//! of the driver's own headers; the driver refuses any other.

use crate::arena::{fits, next_start, FSpan, Frame};
use crate::bytes::{contents, fields, split_ascii_whitespace, utf8_of};
use crate::gpu::{GpuProc, Totals};
use crate::layout::bytes_of;
use crate::map::{fold_entries, order_free, strictly_ascending, total, value_of};
use crate::twrite::{decimal, decimal_digits, digit_count};
use crate::wire::{
    le32, le64, long_at, push_long, push_word, push_zeros, read_long, read_word, word_at, zeros,
};
use vstd::prelude::*;
use vstd::string::StringSliceAdditionalSpecFns;

verus! {

/// The letter that marks the driver's control calls.
pub const NV_IOCTL_MAGIC: u32 = 0x46;

pub const NV_ESC_RM_ALLOC: u32 = 0x2b;

pub const NV_ESC_RM_CONTROL: u32 = 0x2a;

pub const NV_ESC_CARD_INFO: u32 = 200;

pub const NV_ESC_CHECK_VERSION_STR: u32 = 210;

/// Most devices that the driver knows of.
pub const NV_MAX_DEVICES: usize = 32;

pub const NV01_ROOT: u32 = 0x0;

pub const NV01_DEVICE_0: u32 = 0x80;

pub const NV20_SUBDEVICE_0: u32 = 0x2080;

pub const CMD_FB_GET_INFO: u32 = 0x2080_1301;

pub const FB_INFO_INDEX_TOTAL_RAM_SIZE: u32 = 0x08;

pub const FB_INFO_INDEX_HEAP_FREE: u32 = 0x16;

pub const CMD_PERFMON_UTIL_SAMPLES: u32 = 0x2080_2096;

/// Samples in the driver's ring.
pub const PERFMON_SAMPLES: usize = 72;

pub const CMD_GPU_GET_PIDS: u32 = 0x2080_018d;

/// Processes that the driver lists at most.
pub const GET_PIDS_MAX: usize = 950;

pub const CMD_GPU_GET_PID_INFO: u32 = 0x2080_018e;

/// Processes that one call tells of at most.
pub const GET_PID_INFO_MAX: usize = 200;

/// Bytes of a version string with its end mark.
pub const VERSION_STRING_LENGTH: usize = 64;

pub const CARD_INFO_SIZE: usize = 72;

pub const VERSION_SIZE: usize = 72;

pub const ALLOC_SIZE: usize = 32;

pub const CONTROL_SIZE: usize = 32;

pub const ROOT_PARAMS_SIZE: usize = 120;

pub const DEVICE_PARAMS_SIZE: usize = 56;

pub const SUBDEVICE_PARAMS_SIZE: usize = 4;

pub const FB_INFO_SIZE: usize = 8;

pub const ENGINE_SAMPLE_SIZE: usize = 128;

pub const PERFMON_SAMPLE_SIZE: usize = 776;

pub const PERFMON_PARAMS_SIZE: usize = 55888;

pub const GET_PIDS_SIZE: usize = 3812;

pub const VIDEO_MEMORY_SIZE: usize = 48;

pub const SMC_SUBSCRIPTION_SIZE: usize = 8;

pub const PID_INFO_SIZE: usize = 72;

pub const GET_PID_INFO_SIZE: usize = 14408;

/// Where a sample holds its graphics engine: behind the time stamp and the
/// memory engine.
pub const GR_OFFSET: usize = 136;

/// Most entries that one device adds: one sample, and the listed processes.
pub const MAX_PROCS_PER_GPU: u32 = 201;

/// The number of a control call that reads and writes `size` bytes.
pub fn iowr(magic: u32, nr: u32, size: u32) -> (r: u64)
    ensures
        r == ((3u32 << 30) | (size << 16) | (magic << 8) | nr),
        size < 0x4000 && magic < 0x100 && nr < 0x100 ==> r == 0xc000_0000 + size * 0x1_0000 + magic
            * 0x100 + nr,
{
    let word: u32 = (3u32 << 30) | (size << 16) | (magic << 8) | nr;
    assert(size < 0x4000 && magic < 0x100 && nr < 0x100 ==> (3u32 << 30) | (size << 16) | (magic
        << 8) | nr == 0xc000_0000 + size * 0x1_0000 + magic * 0x100 + nr) by (bit_vector);
    word as u64
}

/// The handle of device `i`.
pub fn device_handle(i: u32) -> (r: u32)
    ensures
        r == 0xc1d0_0100 + i % 0x100,
{
    assert(0xc1d0_0100u32 | (i & 0xff) == 0xc1d0_0100 + i % 0x100) by (bit_vector);
    0xc1d0_0100 | (i & 0xff)
}

/// The handle of the subdevice of device `i`.
pub fn subdevice_handle(i: u32) -> (r: u32)
    ensures
        r == 0xc1d0_0200 + i % 0x100,
{
    assert(0xc1d0_0200u32 | (i & 0xff) == 0xc1d0_0200 + i % 0x100) by (bit_vector);
    0xc1d0_0200 | (i & 0xff)
}

/// `s` starts with a digit and holds a dot.
pub open spec fn is_version(s: Seq<u8>) -> bool {
    s.len() > 0 && 0x30 <= s[0] <= 0x39 && s.contains(0x2e)
}

/// The first of `words` that is a version.
pub open spec fn first_version(words: Seq<Seq<u8>>) -> Option<Seq<u8>>
    decreases words.len(),
{
    if words.len() == 0 {
        None
    } else if is_version(words[0]) {
        Some(words[0])
    } else {
        first_version(words.skip(1))
    }
}

/// Whether `s` is a version.
fn looks_like_version(s: &[u8]) -> (r: bool)
    ensures
        r == is_version(s@),
{
    if s.len() == 0 || s[0] < 0x30 || s[0] > 0x39 {
        return false;
    }
    for i in 0..s.len()
        invariant
            forall|j: int| 0 <= j < i ==> s@[j] != 0x2e,
            s@.len() > 0 && 0x30 <= s@[0] <= 0x39,
    {
        if s[i] == 0x2e {
            assert(s@.contains(0x2e)) by {
                assert(s@[i as int] == 0x2e);
            }
            return true;
        }
    }
    false
}

/// The driver's version in the text of its version file.
pub fn driver_version(content: &[u8]) -> (r: Option<&[u8]>)
    ensures
        match r {
            Some(v) => first_version(fields(content@)) == Some(v@),
            None => first_version(fields(content@)) is None,
        },
{
    let words: Vec<&[u8]> = split_ascii_whitespace(content);
    let ghost all = contents(words@);
    let n: usize = words.len();
    let mut i: usize = 0;
    assert(all.skip(0) =~= all);
    while i < n
        invariant
            i <= n == words@.len(),
            all == contents(words@),
            all == fields(content@),
            first_version(all) == first_version(all.skip(i as int)),
        decreases n - i,
    {
        assert(all.skip(i as int)[0] == words@[i as int]@);
        assert(all.skip(i as int).skip(1) =~= all.skip(i + 1));
        if looks_like_version(words[i]) {
            return Some(words[i]);
        }
        i = i + 1;
    }
    None
}

/// What is kept of a version string: it must leave room for an end mark.
pub open spec fn clipped_version(v: Seq<u8>) -> Seq<u8> {
    if v.len() <= 63 {
        v
    } else {
        v.take(63)
    }
}

/// The message that has the driver compare `version` with its own.
pub fn version_request(version: &[u8]) -> (r: Vec<u8>)
    ensures
        r@ == le32(0) + le32(0) + clipped_version(version@) + zeros(
            64 - clipped_version(version@).len(),
        ),
        r@.len() == VERSION_SIZE,
{
    let mut r: Vec<u8> = Vec::new();
    push_word(&mut r, 0);
    push_word(&mut r, 0);
    let n: usize = if version.len() <= 63 { version.len() } else { 63 };
    assert(version@.subrange(0, n as int) =~= clipped_version(version@));
    r.extend_from_slice(vstd::slice::slice_subrange(version, 0, n));
    push_zeros(&mut r, VERSION_STRING_LENGTH - n);
    assert(r@ =~= le32(0) + le32(0) + clipped_version(version@) + zeros(
        64 - clipped_version(version@).len(),
    ));
    r
}

/// How many of the first `n` entries of the card table are in use.
pub open spec fn valid_cards(table: Seq<u8>, n: nat) -> nat
    decreases n,
{
    if n == 0 {
        0
    } else {
        valid_cards(table, (n - 1) as nat) + if table[(n - 1) * CARD_INFO_SIZE] != 0 {
            1nat
        } else {
            0nat
        }
    }
}

/// How many devices the card table lists.
pub fn count_attached_gpus(table: &[u8]) -> (r: usize)
    requires
        table@.len() == NV_MAX_DEVICES * CARD_INFO_SIZE,
    ensures
        r == valid_cards(table@, NV_MAX_DEVICES as nat),
        r <= NV_MAX_DEVICES,
{
    let mut count: usize = 0;
    for i in 0..NV_MAX_DEVICES
        invariant
            table@.len() == NV_MAX_DEVICES * CARD_INFO_SIZE,
            count == valid_cards(table@, i as nat),
            count <= i,
    {
        if table[i * CARD_INFO_SIZE] != 0 {
            count = count + 1;
        }
    }
    count
}

/// The message of an allocation: parent, new handle and class, the address
/// and size of the parameters, and room for the status.
pub fn alloc_request(
    h_root: u32,
    h_parent: u32,
    h_new: u32,
    class: u32,
    params_addr: u64,
    params_size: u32,
) -> (r: Vec<u8>)
    ensures
        r@ == le32(h_root) + le32(h_parent) + le32(h_new) + le32(class) + le64(params_addr) + le32(
            params_size,
        ) + le32(0),
        r@.len() == ALLOC_SIZE,
{
    let mut r: Vec<u8> = Vec::new();
    push_word(&mut r, h_root);
    push_word(&mut r, h_parent);
    push_word(&mut r, h_new);
    push_word(&mut r, class);
    push_long(&mut r, params_addr);
    push_word(&mut r, params_size);
    push_word(&mut r, 0);
    assert(r@ =~= le32(h_root) + le32(h_parent) + le32(h_new) + le32(class) + le64(params_addr)
        + le32(params_size) + le32(0));
    r
}

/// The new handle in the answer to an allocation, if the call returned 0 and
/// the status is 0.
pub fn alloc_reply(ret: i64, reply: &[u8]) -> (r: Option<u32>)
    requires
        reply@.len() == ALLOC_SIZE,
    ensures
        r == (if ret == 0 && word_at(reply@, 28) == 0 {
            Some(word_at(reply@, 8) as u32)
        } else {
            None
        }),
{
    if ret != 0 || read_word(reply, 28) != 0 {
        return None;
    }
    Some(read_word(reply, 8))
}

/// The message of a control command.
pub fn control_request(
    h_client: u32,
    h_object: u32,
    cmd: u32,
    params_addr: u64,
    params_size: u32,
) -> (r: Vec<u8>)
    ensures
        r@ == le32(h_client) + le32(h_object) + le32(cmd) + le32(0) + le64(params_addr) + le32(
            params_size,
        ) + le32(0),
        r@.len() == CONTROL_SIZE,
{
    let mut r: Vec<u8> = Vec::new();
    push_word(&mut r, h_client);
    push_word(&mut r, h_object);
    push_word(&mut r, cmd);
    push_word(&mut r, 0);
    push_long(&mut r, params_addr);
    push_word(&mut r, params_size);
    push_word(&mut r, 0);
    assert(r@ =~= le32(h_client) + le32(h_object) + le32(cmd) + le32(0) + le64(params_addr) + le32(
        params_size,
    ) + le32(0));
    r
}

/// Whether a control command succeeded: the call returned 0 and the status is
/// 0.
pub fn control_ok(ret: i64, reply: &[u8]) -> (r: bool)
    requires
        reply@.len() == CONTROL_SIZE,
    ensures
        r == (ret == 0 && word_at(reply@, 28) == 0),
{
    ret == 0 && read_word(reply, 28) == 0
}

/// The parameters of the root client: its process, and the program's name.
pub fn root_params(pid: u32) -> (r: Vec<u8>)
    ensures
        r@ == le32(0) + le32(pid) + seq![0x6cu8, 0x74, 0x6f, 0x70] + zeros(108),
        r@.len() == ROOT_PARAMS_SIZE,
{
    let mut r: Vec<u8> = Vec::new();
    push_word(&mut r, 0);
    push_word(&mut r, pid);
    r.push(0x6c);
    r.push(0x74);
    r.push(0x6f);
    r.push(0x70);
    push_zeros(&mut r, 108);
    assert(r@ =~= le32(0) + le32(pid) + seq![0x6cu8, 0x74, 0x6f, 0x70] + zeros(108));
    r
}

/// The parameters of device `index`.
pub fn device_params(index: u32) -> (r: Vec<u8>)
    ensures
        r@ == le32(index) + zeros(52),
        r@.len() == DEVICE_PARAMS_SIZE,
{
    let mut r: Vec<u8> = Vec::new();
    push_word(&mut r, index);
    push_zeros(&mut r, 52);
    assert(r@ =~= le32(index) + zeros(52));
    r
}

/// What is asked of the driver to make device `index` under `client`: parent,
/// new handle, class.
pub fn alloc_device(client: u32, index: u32) -> (r: (u32, u32, u32))
    ensures
        r == (client, (0xc1d0_0100 + index % 0x100) as u32, NV01_DEVICE_0),
{
    (client, device_handle(index), NV01_DEVICE_0)
}

/// What is asked of the driver to make the subdevice of device `index`:
/// parent, new handle, class.
pub fn alloc_subdevice(index: u32) -> (r: (u32, u32, u32))
    ensures
        r == (
            (0xc1d0_0100 + index % 0x100) as u32,
            (0xc1d0_0200 + index % 0x100) as u32,
            NV20_SUBDEVICE_0,
        ),
{
    (device_handle(index), subdevice_handle(index), NV20_SUBDEVICE_0)
}

/// A step of opening the driver; each waits for the answer to its call.
#[derive(Clone, Copy, Debug, PartialEq, Eq, Structural)]
pub enum Stage {
    /// Open the control device. The answer is its descriptor.
    OpenControl,
    /// Compare versions.
    CheckVersion,
    /// Read the card table. The answer is the number of devices.
    CountCards,
    /// Make a root client. The answer is its handle.
    AllocRoot { n: u32 },
    /// Open device `i`. The answer is its descriptor.
    OpenDevice { n: u32, client: u32, i: u32 },
    /// Make device `i`.
    AllocDevice { n: u32, client: u32, i: u32 },
    /// Make the subdevice of device `i`.
    AllocSubdevice { n: u32, client: u32, i: u32 },
    /// All `n` devices are there.
    Ready { n: u32, client: u32 },
    /// A call failed.
    Failed,
}

/// The stage that deals with device `i` of `n`.
pub open spec fn device_stage(n: u32, client: u32, i: u32) -> Stage {
    if i < n {
        Stage::OpenDevice { n, client, i }
    } else {
        Stage::Ready { n, client }
    }
}

/// The stage after `stage` when its call was answered by `got`, `None` for a
/// failure.
pub open spec fn next_stage(stage: Stage, got: Option<u32>) -> Stage {
    match (stage, got) {
        (Stage::Ready { n, client }, _) => stage,
        (_, None) => Stage::Failed,
        (Stage::OpenControl, Some(_)) => Stage::CheckVersion,
        (Stage::CheckVersion, Some(_)) => Stage::CountCards,
        (Stage::CountCards, Some(n)) => Stage::AllocRoot { n },
        (Stage::AllocRoot { n }, Some(client)) => device_stage(n, client, 0),
        (Stage::OpenDevice { n, client, i }, Some(_)) => Stage::AllocDevice { n, client, i },
        (Stage::AllocDevice { n, client, i }, Some(_)) => Stage::AllocSubdevice { n, client, i },
        (Stage::AllocSubdevice { n, client, i }, Some(_)) => if i < n {
            device_stage(n, client, (i + 1) as u32)
        } else {
            Stage::Failed
        },
        (Stage::Failed, _) => Stage::Failed,
    }
}

/// The stage after `stage` when its call was answered by `got`.
pub fn try_init(stage: Stage, got: Option<u32>) -> (r: Stage)
    ensures
        r == next_stage(stage, got),
{
    match stage {
        Stage::Ready { n, client } => Stage::Ready { n, client },
        Stage::Failed => Stage::Failed,
        _ => match got {
            None => Stage::Failed,
            Some(value) => match stage {
                Stage::OpenControl => Stage::CheckVersion,
                Stage::CheckVersion => Stage::CountCards,
                Stage::CountCards => Stage::AllocRoot { n: value },
                Stage::AllocRoot { n } => first_device(n, value, 0),
                Stage::OpenDevice { n, client, i } => Stage::AllocDevice { n, client, i },
                Stage::AllocDevice { n, client, i } => Stage::AllocSubdevice { n, client, i },
                Stage::AllocSubdevice { n, client, i } => {
                    if i < n {
                        first_device(n, client, i + 1)
                    } else {
                        Stage::Failed
                    }
                },
                Stage::Ready { n, client } => Stage::Ready { n, client },
                Stage::Failed => Stage::Failed,
            },
        },
    }
}

/// The stage that deals with device `i` of `n`.
fn first_device(n: u32, client: u32, i: u32) -> (r: Stage)
    ensures
        r == device_stage(n, client, i),
{
    if i < n {
        Stage::OpenDevice { n, client, i }
    } else {
        Stage::Ready { n, client }
    }
}

/// The stage after a row of answers.
pub open spec fn stage_after(stage: Stage, answers: Seq<Option<u32>>) -> Stage
    decreases answers.len(),
{
    if answers.len() == 0 {
        stage
    } else {
        stage_after(next_stage(stage, answers[0]), answers.skip(1))
    }
}

proof fn lemma_devices_open(n: u32, client: u32, i: u32, answers: Seq<Option<u32>>)
    requires
        i <= n,
        answers.len() == 3 * (n - i),
        forall|k: int| 0 <= k < answers.len() ==> (#[trigger] answers[k]) is Some,
    ensures
        stage_after(device_stage(n, client, i), answers) == (Stage::Ready { n, client }),
    decreases n - i,
{
    if i < n {
        let a = answers.skip(1);
        let b = a.skip(1);
        let c = b.skip(1);
        assert(answers[0] is Some);
        assert(a[0] == answers[1]);
        assert(b[0] == answers[2]);
        assert forall|k: int| 0 <= k < c.len() implies (#[trigger] c[k]) is Some by {
            assert(c[k] == answers[k + 3]);
        }
        lemma_devices_open(n, client, (i + 1) as u32, c);
        reveal_with_fuel(stage_after, 4);
    }
}

/// Opening ends with all devices ready if no call fails: four calls, and three
/// for each device.
pub proof fn law_init_reaches_ready(answers: Seq<Option<u32>>, n: u32, client: u32)
    requires
        answers.len() == 4 + 3 * n,
        forall|k: int| 0 <= k < answers.len() ==> (#[trigger] answers[k]) is Some,
        answers[2] == Some(n),
        answers[3] == Some(client),
    ensures
        stage_after(Stage::OpenControl, answers) == (Stage::Ready { n, client }),
{
    let a = answers.skip(1);
    let b = a.skip(1);
    let c = b.skip(1);
    let d = c.skip(1);
    assert(answers[0] is Some);
    assert(a[0] == answers[1]);
    assert(b[0] == answers[2]);
    assert(c[0] == answers[3]);
    assert forall|k: int| 0 <= k < d.len() implies (#[trigger] d[k]) is Some by {
        assert(d[k] == answers[k + 4]);
    }
    lemma_devices_open(n, client, 0, d);
    reveal_with_fuel(stage_after, 5);
}

/// A failed call is final.
pub proof fn law_init_failure_is_final(answers: Seq<Option<u32>>)
    ensures
        stage_after(Stage::Failed, answers) == Stage::Failed,
    decreases answers.len(),
{
    if answers.len() > 0 {
        law_init_failure_is_final(answers.skip(1));
    }
}

/// The driver as it was opened: no descriptor and no device if it could not
/// be.
pub struct State<'id> {
    ctl_fd: Option<i32>,
    client: u32,
    gpus: FSpan<'id, u32>,
}

impl<'id> State<'id> {
    /// The control device.
    pub closed spec fn control(&self) -> Option<i32> {
        self.ctl_fd
    }

    /// The root client.
    pub closed spec fn root(&self) -> u32 {
        self.client
    }

    /// The handles of the subdevices.
    pub closed spec fn handles(&self) -> Seq<u32> {
        self.gpus@
    }

    /// Whether there is a device.
    pub fn has_gpu(&self) -> (r: bool)
        ensures
            r == (self.handles().len() > 0),
    {
        self.gpus.len() > 0
    }

    /// The control device.
    pub fn ctl_fd(&self) -> (r: Option<i32>)
        ensures
            r == self.control(),
    {
        self.ctl_fd
    }

    /// The root client.
    pub fn client(&self) -> (r: u32)
        ensures
            r == self.root(),
    {
        self.client
    }

    /// The handles of the subdevices.
    pub fn subdevices(&self) -> (r: &[u32])
        ensures
            r@ == self.handles(),
    {
        self.gpus.as_slice()
    }
}

/// The state that opening led to: `stage` is where it ended, `ctl_fd` the
/// control device.
pub fn init<'a>(frame: &mut Frame<'a>, stage: Stage, ctl_fd: i32) -> (r: State<'a>)
    requires
        match stage {
            Stage::Ready { n, client } => fits::<u32>(old(frame).top(), n as nat),
            _ => fits::<u32>(old(frame).top(), 0),
        },
    ensures
        match stage {
            Stage::Ready { n, client } => r.control() == Some(ctl_fd) && r.root() == client
                && r.handles() == Seq::new(
                n as nat,
                |i: int| (0xc1d0_0200 + i % 0x100) as u32,
            ),
            _ => r.control() is None && r.root() == 0 && r.handles().len() == 0,
        },
        final(frame).top() == next_start::<u32>(old(frame).top()) + bytes_of::<u32>(
            r.handles().len(),
        ),
{
    match stage {
        Stage::Ready { n, client } => {
            let mut room = frame.reserve::<u32>("gpu/gpus", n);
            let ghost lender = room.lender();
            for i in 0..n
                invariant
                    room.wf(),
                    room.cap() == n,
                    room.at() == next_start::<u32>(old(frame).top()),
                    room.lender() == lender,
                    room@ == Seq::new(i as nat, |k: int| (0xc1d0_0200 + k % 0x100) as u32),
            {
                let _ = room.push(subdevice_handle(i));
                assert(room@ =~= Seq::new((i + 1) as nat, |k: int| (0xc1d0_0200 + k % 0x100) as u32));
            }
            State { ctl_fd: Some(ctl_fd), client, gpus: room.freeze() }
        },
        _ => {
            let gpus: FSpan<'a, u32> = frame.place("gpu/gpus", Vec::new());
            State { ctl_fd: None, client: 0, gpus }
        },
    }
}

/// The list that asks for a device's memory: its size, and what is free.
pub fn fb_info_request() -> (r: Vec<u8>)
    ensures
        r@ == le32(FB_INFO_INDEX_TOTAL_RAM_SIZE) + le32(0) + le32(FB_INFO_INDEX_HEAP_FREE) + le32(0),
        r@.len() == 2 * FB_INFO_SIZE,
{
    let mut r: Vec<u8> = Vec::new();
    push_word(&mut r, FB_INFO_INDEX_TOTAL_RAM_SIZE);
    push_word(&mut r, 0);
    push_word(&mut r, FB_INFO_INDEX_HEAP_FREE);
    push_word(&mut r, 0);
    assert(r@ =~= le32(FB_INFO_INDEX_TOTAL_RAM_SIZE) + le32(0) + le32(FB_INFO_INDEX_HEAP_FREE)
        + le32(0));
    r
}

/// The parameters that point at that list.
pub fn fb_info_params(list_addr: u64) -> (r: Vec<u8>)
    ensures
        r@ == le32(2) + le32(0) + le64(list_addr),
{
    let mut r: Vec<u8> = Vec::new();
    push_word(&mut r, 2);
    push_word(&mut r, 0);
    push_long(&mut r, list_addr);
    assert(r@ =~= le32(2) + le32(0) + le64(list_addr));
    r
}

/// Used and total MiB in the answered list, whose amounts are in KiB. More
/// free than there is counts as none used.
pub open spec fn memory_of(list: Seq<u8>) -> (u64, u64) {
    let total = word_at(list, 4);
    let free = word_at(list, 12);
    (
        (if total >= free { (total - free) / 1024 } else { 0 }) as u64,
        (total / 1024) as u64,
    )
}

/// Used and total MiB in the answered list.
pub fn fb_memory(list: &[u8]) -> (r: (u64, u64))
    requires
        list@.len() == 2 * FB_INFO_SIZE,
    ensures
        r == memory_of(list@),
        r.0 <= 0x40_0000,
        r.1 <= 0x40_0000,
{
    let total: u64 = read_word(list, 4) as u64;
    let free: u64 = read_word(list, 12) as u64;
    (total.saturating_sub(free) / 1024, total / 1024)
}

/// The parameters that ask for the ring of samples: the driver insists on all
/// of it.
pub fn perfmon_request() -> (r: Vec<u8>)
    ensures
        r@ == le32(0) + le32((PERFMON_SAMPLES * PERFMON_SAMPLE_SIZE) as u32) + le32(
            PERFMON_SAMPLES as u32,
        ) + le32(0) + zeros(PERFMON_SAMPLES * PERFMON_SAMPLE_SIZE),
        r@.len() == PERFMON_PARAMS_SIZE,
{
    let mut r: Vec<u8> = Vec::new();
    push_word(&mut r, 0);
    push_word(&mut r, (PERFMON_SAMPLES * PERFMON_SAMPLE_SIZE) as u32);
    push_word(&mut r, PERFMON_SAMPLES as u32);
    push_word(&mut r, 0);
    push_zeros(&mut r, PERFMON_SAMPLES * PERFMON_SAMPLE_SIZE);
    assert(r@ =~= le32(0) + le32((PERFMON_SAMPLES * PERFMON_SAMPLE_SIZE) as u32) + le32(
        PERFMON_SAMPLES as u32,
    ) + le32(0) + zeros(PERFMON_SAMPLES * PERFMON_SAMPLE_SIZE));
    r
}

/// How many samples an answer holds: what it says, but no more than the ring.
pub open spec fn sample_count(params: Seq<u8>) -> int {
    let n = word_at(params, 8);
    if n <= PERFMON_SAMPLES {
        n
    } else {
        PERFMON_SAMPLES as int
    }
}

/// Where the graphics engine of the latest sample lies.
pub open spec fn latest_gr(params: Seq<u8>) -> int {
    16 + (sample_count(params) - 1) * PERFMON_SAMPLE_SIZE + GR_OFFSET
}

/// The busy percent in the latest sample, and the process it is put down to,
/// if any. The driver counts in hundredths of a percent.
pub open spec fn latest_sample(params: Seq<u8>) -> (u32, Option<(u32, u32)>) {
    if sample_count(params) == 0 {
        (0, None)
    } else {
        let pct = (word_at(params, latest_gr(params)) / 100) as u32;
        let pid = word_at(params, latest_gr(params) + 8) as u32;
        (
            pct,
            if pid != 0 {
                Some((pid, pct))
            } else {
                None
            },
        )
    }
}

/// The busy percent in the latest sample, and the process it is put down to.
pub fn perfmon_util(params: &[u8]) -> (r: (u32, Option<(u32, u32)>))
    requires
        params@.len() == PERFMON_PARAMS_SIZE,
    ensures
        r == latest_sample(params@),
        r.0 <= 42_949_672,
{
    let said: u32 = read_word(params, 8);
    let n: usize = if said as usize <= PERFMON_SAMPLES { said as usize } else { PERFMON_SAMPLES };
    if n == 0 {
        return (0, None);
    }
    let gr: usize = 16 + (n - 1) * PERFMON_SAMPLE_SIZE + GR_OFFSET;
    let pct: u32 = read_word(params, gr) / 100;
    let pid: u32 = read_word(params, gr + 8);
    (
        pct,
        if pid != 0 {
            Some((pid, pct))
        } else {
            None
        },
    )
}

/// The parameters that ask which processes use a subdevice.
pub fn pids_request() -> (r: Vec<u8>)
    ensures
        r@ == le32(0) + le32(NV20_SUBDEVICE_0) + le32(0) + zeros(4 * GET_PIDS_MAX),
        r@.len() == GET_PIDS_SIZE,
{
    let mut r: Vec<u8> = Vec::new();
    push_word(&mut r, 0);
    push_word(&mut r, NV20_SUBDEVICE_0);
    push_word(&mut r, 0);
    push_zeros(&mut r, 4 * GET_PIDS_MAX);
    assert(r@ =~= le32(0) + le32(NV20_SUBDEVICE_0) + le32(0) + zeros(4 * GET_PIDS_MAX));
    r
}

/// How many of the listed processes are asked about.
pub open spec fn asked_count(pids: Seq<u8>) -> int {
    let n = word_at(pids, 8);
    if n <= GET_PID_INFO_MAX {
        n
    } else {
        GET_PID_INFO_MAX as int
    }
}

/// How many of the listed processes are asked about.
pub fn pids_count(pids: &[u8]) -> (r: usize)
    requires
        pids@.len() == GET_PIDS_SIZE,
    ensures
        r == asked_count(pids@),
        r <= GET_PID_INFO_MAX,
{
    let said: u32 = read_word(pids, 8);
    if said as usize <= GET_PID_INFO_MAX {
        said as usize
    } else {
        GET_PID_INFO_MAX
    }
}

/// The first `n` entries of a question about memory: the listed processes.
pub open spec fn asked_entries(pids: Seq<u8>, n: nat) -> Seq<u8>
    decreases n,
{
    if n == 0 {
        Seq::empty()
    } else {
        asked_entries(pids, (n - 1) as nat) + le32(word_at(pids, 12 + 4 * (n - 1)) as u32) + zeros(68)
    }
}

/// The parameters that ask how much memory each listed process has.
pub fn pid_info_request(pids: &[u8]) -> (r: Vec<u8>)
    requires
        pids@.len() == GET_PIDS_SIZE,
    ensures
        r@ == le32(asked_count(pids@) as u32) + le32(0) + asked_entries(
            pids@,
            asked_count(pids@) as nat,
        ) + zeros((GET_PID_INFO_MAX - asked_count(pids@)) * PID_INFO_SIZE),
        r@.len() == GET_PID_INFO_SIZE,
{
    let n: usize = pids_count(pids);
    let ghost head = le32(n as u32) + le32(0);
    let mut r: Vec<u8> = Vec::new();
    push_word(&mut r, n as u32);
    push_word(&mut r, 0);
    assert(r@ =~= head + asked_entries(pids@, 0));
    for i in 0..n
        invariant
            n <= GET_PID_INFO_MAX,
            pids@.len() == GET_PIDS_SIZE,
            head.len() == 8,
            r@ == head + asked_entries(pids@, i as nat),
            r@.len() == 8 + i * PID_INFO_SIZE,
    {
        push_word(&mut r, read_word(pids, 12 + 4 * i));
        push_zeros(&mut r, 68);
        assert(r@ =~= head + asked_entries(pids@, (i + 1) as nat));
    }
    push_zeros(&mut r, (GET_PID_INFO_MAX - n) * PID_INFO_SIZE);
    r
}

/// The MiB that entry `i` of an answer puts down to its process; what does
/// not fit 32 bits is lost.
pub open spec fn entry_mib(info: Seq<u8>, i: int) -> u32 {
    (long_at(info, 8 + i * PID_INFO_SIZE + 24) / 0x10_0000 % 0x1_0000_0000) as u32
}

/// The processes with memory among the first `n` entries of an answer.
pub open spec fn memory_entries(info: Seq<u8>, n: nat) -> Seq<(u32, GpuProc)>
    decreases n,
{
    if n == 0 {
        Seq::empty()
    } else {
        let before = memory_entries(info, (n - 1) as nat);
        let mib = entry_mib(info, n - 1);
        if mib > 0 {
            before.push(
                (
                    word_at(info, 8 + (n - 1) * PID_INFO_SIZE) as u32,
                    GpuProc { sm_pct: 0, mem_mib: mib },
                ),
            )
        } else {
            before
        }
    }
}

/// Adds the processes with memory among the first `n` entries of an answer.
pub fn proc_memory(info: &[u8], n: usize, procs: &mut Vec<(u32, GpuProc)>)
    requires
        info@.len() == GET_PID_INFO_SIZE,
        n <= GET_PID_INFO_MAX,
    ensures
        final(procs)@ == old(procs)@ + memory_entries(info@, n as nat),
        memory_entries(info@, n as nat).len() <= n,
{
    let ghost before = procs@;
    assert(before + memory_entries(info@, 0) =~= before);
    for i in 0..n
        invariant
            info@.len() == GET_PID_INFO_SIZE,
            n <= GET_PID_INFO_MAX,
            procs@ == before + memory_entries(info@, i as nat),
            memory_entries(info@, i as nat).len() <= i,
    {
        let at: usize = 8 + i * PID_INFO_SIZE;
        let pid: u32 = read_word(info, at);
        let mib: u32 = (read_long(info, at + 24) / 0x10_0000 % 0x1_0000_0000) as u32;
        if mib > 0 {
            procs.push((pid, GpuProc { sm_pct: 0, mem_mib: mib }));
        }
        assert(procs@ =~= before + memory_entries(info@, (i + 1) as nat));
    }
}

/// What a device is asked in one round, one after the other.
#[derive(Clone, Copy, Debug, PartialEq, Eq, Structural)]
pub enum Question {
    /// How much memory it has.
    Memory,
    /// The ring of samples.
    Samples,
    /// Which processes use it.
    Pids,
    /// How much memory each of them has.
    PidInfo,
    /// Nothing more.
    Done,
}

/// What is asked behind `question` when `answer` came, `None` if the call
/// failed: nothing more of a device that does not tell its memory, and no
/// details if there are no processes.
pub open spec fn asked_next(question: Question, answer: Option<Vec<u8>>) -> Question {
    match question {
        Question::Memory => if answer is Some {
            Question::Samples
        } else {
            Question::Done
        },
        Question::Samples => Question::Pids,
        Question::Pids => match answer {
            Some(pids) => if asked_count(pids@) > 0 {
                Question::PidInfo
            } else {
                Question::Done
            },
            None => Question::Done,
        },
        Question::PidInfo => Question::Done,
        Question::Done => Question::Done,
    }
}

/// What is asked next.
pub fn next_question(question: Question, answer: &Option<Vec<u8>>) -> (r: Question)
    requires
        question == Question::Pids && answer is Some ==> (answer->0)@.len() == GET_PIDS_SIZE,
    ensures
        r == asked_next(question, *answer),
{
    match question {
        Question::Memory => if answer.is_some() {
            Question::Samples
        } else {
            Question::Done
        },
        Question::Samples => Question::Pids,
        Question::Pids => match answer {
            Some(pids) => if pids_count(pids.as_slice()) > 0 {
                Question::PidInfo
            } else {
                Question::Done
            },
            None => Question::Done,
        },
        Question::PidInfo => Question::Done,
        Question::Done => Question::Done,
    }
}

/// The answers of one device in one round, `None` where a call failed.
pub struct Reading {
    /// The memory list.
    pub fb: Option<Vec<u8>>,
    /// The ring of samples.
    pub util: Option<Vec<u8>>,
    /// The memory of processes, and how many were asked about.
    pub procs: Option<(usize, Vec<u8>)>,
}

/// The answers have the sizes of the messages.
pub open spec fn sized(r: Reading) -> bool {
    &&& r.fb matches Some(b) ==> b@.len() == 2 * FB_INFO_SIZE
    &&& r.util matches Some(b) ==> b@.len() == PERFMON_PARAMS_SIZE
    &&& r.procs matches Some(p) ==> p.0 <= GET_PID_INFO_MAX && p.1@.len() == GET_PID_INFO_SIZE
}

/// What the ring of samples tells, if it could be read.
pub open spec fn reading_sample(r: Reading) -> (u32, Option<(u32, u32)>) {
    match r.util {
        Some(b) => latest_sample(b@),
        None => (0, None),
    }
}

/// Totals of the devices whose memory could be read: number, busy percent,
/// used MiB, total MiB.
pub open spec fn device_totals(rs: Seq<Reading>) -> (nat, nat, nat, nat)
    decreases rs.len(),
{
    if rs.len() == 0 {
        (0, 0, 0, 0)
    } else {
        let (n, util, used, all) = device_totals(rs.drop_last());
        match rs.last().fb {
            None => (n, util, used, all),
            Some(list) => (
                n + 1,
                util + reading_sample(rs.last()).0 as nat,
                used + memory_of(list@).0 as nat,
                all + memory_of(list@).1 as nat,
            ),
        }
    }
}

/// The sampled processes of the devices whose memory could be read.
pub open spec fn sampled(rs: Seq<Reading>) -> Seq<(u32, GpuProc)>
    decreases rs.len(),
{
    if rs.len() == 0 {
        Seq::empty()
    } else {
        let before = sampled(rs.drop_last());
        match (rs.last().fb, reading_sample(rs.last()).1) {
            (Some(_), Some((pid, pct))) => before.push((pid, GpuProc { sm_pct: pct, mem_mib: 0 })),
            _ => before,
        }
    }
}

/// The processes with memory on the devices whose memory could be read.
pub open spec fn with_memory(rs: Seq<Reading>) -> Seq<(u32, GpuProc)>
    decreases rs.len(),
{
    if rs.len() == 0 {
        Seq::empty()
    } else {
        let before = with_memory(rs.drop_last());
        match (rs.last().fb, rs.last().procs) {
            (Some(_), Some((n, info))) => before + memory_entries(info@, n as nat),
            _ => before,
        }
    }
}

/// Both shares summed, modulo 2^32.
pub open spec fn proc_sum() -> spec_fn(GpuProc, GpuProc) -> GpuProc {
    |a: GpuProc, b: GpuProc|
        GpuProc {
            sm_pct: a.sm_pct.wrapping_add(b.sm_pct),
            mem_mib: a.mem_mib.wrapping_add(b.mem_mib),
        }
}

proof fn lemma_proc_sum_order_free()
    ensures
        order_free(proc_sum()),
{
    let f = proc_sum();
    assert forall|x: GpuProc, y: GpuProc, z: GpuProc| #[trigger] f(f(x, y), z) == f(x, f(y, z)) by {}
}

/// Adds the shares that go to those that stay.
fn merge_procs(kept: &mut GpuProc, gone: &mut GpuProc)
    ensures
        *final(kept) == proc_sum()(*old(kept), *old(gone)),
{
    *kept = GpuProc {
        sm_pct: kept.sm_pct.wrapping_add(gone.sm_pct),
        mem_mib: kept.mem_mib.wrapping_add(gone.mem_mib),
    };
}

/// Goes through the samples and the memory of all devices.
fn first_pass(rs: &Vec<Reading>) -> (r: (Vec<(u32, GpuProc)>, Totals))
    requires
        rs@.len() <= NV_MAX_DEVICES,
        forall|i: int| 0 <= i < rs@.len() ==> sized(#[trigger] rs@[i]),
    ensures
        r.0@ == sampled(rs@),
        r.0@.len() <= r.1.0,
        r.1.0 <= rs@.len(),
        ({
            let t = device_totals(rs@);
            r.1.0 == t.0 && r.1.1 == t.1 && r.1.2 == t.2 && r.1.3 == t.3
        }),
{
    let mut out: Vec<(u32, GpuProc)> = Vec::new();
    let mut n_gpus: u32 = 0;
    let mut util: u32 = 0;
    let mut used: u64 = 0;
    let mut all: u64 = 0;
    let n: usize = rs.len();
    assert(rs@.take(0) =~= Seq::empty());
    for i in 0..n
        invariant
            n == rs@.len(),
            n <= NV_MAX_DEVICES,
            forall|k: int| 0 <= k < n ==> sized(#[trigger] rs@[k]),
            out@ == sampled(rs@.take(i as int)),
            out@.len() <= n_gpus <= i,
            util <= i * 42_949_672,
            used <= i * 0x40_0000,
            all <= i * 0x40_0000,
            ({
                let t = device_totals(rs@.take(i as int));
                n_gpus == t.0 && util == t.1 && used == t.2 && all == t.3
            }),
    {
        assert(rs@.take(i + 1).drop_last() =~= rs@.take(i as int));
        assert(sized(rs@[i as int]));
        match &rs[i].fb {
            None => {},
            Some(list) => {
                let (u, a) = fb_memory(list.as_slice());
                let (pct, sample) = match &rs[i].util {
                    None => (0u32, None),
                    Some(params) => perfmon_util(params.as_slice()),
                };
                used = used + u;
                all = all + a;
                util = util + pct;
                n_gpus = n_gpus + 1;
                match sample {
                    Some((pid, sm_pct)) => {
                        out.push((pid, GpuProc { sm_pct, mem_mib: 0 }));
                    },
                    None => {},
                }
            },
        }
    }
    assert(rs@.take(n as int) =~= rs@);
    (out, (n_gpus, util, used, all))
}

/// Goes through the processes of all devices.
fn second_pass(rs: &Vec<Reading>, procs: &mut Vec<(u32, GpuProc)>)
    requires
        rs@.len() <= NV_MAX_DEVICES,
        forall|i: int| 0 <= i < rs@.len() ==> sized(#[trigger] rs@[i]),
    ensures
        final(procs)@ == old(procs)@ + with_memory(rs@),
        with_memory(rs@).len() <= GET_PID_INFO_MAX * device_totals(rs@).0,
{
    let ghost before = procs@;
    let n: usize = rs.len();
    assert(rs@.take(0) =~= Seq::empty());
    assert(before + with_memory(rs@.take(0)) =~= before);
    for i in 0..n
        invariant
            n == rs@.len(),
            forall|k: int| 0 <= k < n ==> sized(#[trigger] rs@[k]),
            procs@ == before + with_memory(rs@.take(i as int)),
            with_memory(rs@.take(i as int)).len() <= GET_PID_INFO_MAX * device_totals(
                rs@.take(i as int),
            ).0,
    {
        assert(rs@.take(i + 1).drop_last() =~= rs@.take(i as int));
        assert(sized(rs@[i as int]));
        let ghost so_far = with_memory(rs@.take(i as int));
        if rs[i].fb.is_some() {
            match &rs[i].procs {
                None => {},
                Some(p) => {
                    proc_memory(p.1.as_slice(), p.0, procs);
                    assert(procs@ =~= before + (so_far + memory_entries(p.1@, p.0 as nat)));
                },
            }
        }
    }
    assert(rs@.take(n as int) =~= rs@);
}

/// Evaluates one round of readings, one for each device. Returns what each
/// process takes, by ascending number, and the totals.
pub fn populate<'id>(state: &State<'_>, frame: &mut Frame<'id>, readings: &Vec<Reading>) -> (r: (
    FSpan<'id, (u32, GpuProc)>,
    Totals,
))
    requires
        readings@.len() == state.handles().len(),
        readings@.len() <= NV_MAX_DEVICES,
        forall|i: int| 0 <= i < readings@.len() ==> sized(#[trigger] readings@[i]),
        fits::<(u32, GpuProc)>(old(frame).top(), (readings@.len() * MAX_PROCS_PER_GPU) as nat),
    ensures
        r.0.wf(),
        strictly_ascending(r.0@),
        final(frame).top() == r.0.end(),
        state.control() is None ==> r.0@.len() == 0 && r.0.at() == old(frame).top() && r.1 == (
            0u32,
            0u32,
            0u64,
            0u64,
        ),
        state.control() is Some ==> {
            let t = device_totals(readings@);
            let listed = sampled(readings@) + with_memory(readings@);
            &&& r.0.at() == next_start::<(u32, GpuProc)>(old(frame).top())
            &&& forall|pid: u32| #[trigger] value_of(r.0@, pid) == total(listed, pid, proc_sum())
            &&& r.1.0 == t.0 && r.1.1 == t.1 && r.1.2 == t.2 && r.1.3 == t.3
        },
{
    if state.ctl_fd.is_none() {
        proof {
            crate::layout::lemma_bytes_add::<(u32, GpuProc)>(0, 0);
        }
        let none: FSpan<'id, (u32, GpuProc)> = frame.empty();
        assert(none.end() == frame.top());
        return (none, (0, 0, 0, 0));
    }
    let (mut procs, totals) = first_pass(readings);
    second_pass(readings, &mut procs);
    proof {
        lemma_proc_sum_order_free();
    }
    let ghost listed = procs@;
    let entries: Vec<(u32, GpuProc)> = fold_entries(procs, merge_procs, Ghost(proc_sum()));
    proof {
        crate::layout::lemma_bytes_mono::<(u32, GpuProc)>(
            entries@.len(),
            (readings@.len() * MAX_PROCS_PER_GPU) as nat,
        );
    }
    let span = frame.place("gpu/procs", entries);
    (span, totals)
}

/// A small buffer that text is written into. A piece that does not fit is left
/// out as a whole.
pub struct CharBuf {
    room: usize,
    data: Vec<u8>,
}

impl CharBuf {
    /// What is written.
    pub closed spec fn view(&self) -> Seq<u8> {
        self.data@
    }

    /// How many bytes there is room for.
    pub closed spec fn cap(&self) -> nat {
        self.room as nat
    }

    /// What is written fits.
    pub open spec fn wf(&self) -> bool {
        self@.len() <= self.cap()
    }

    /// An empty buffer of `room` bytes.
    pub fn new(room: usize) -> (r: CharBuf)
        ensures
            r.wf(),
            r@ == Seq::<u8>::empty(),
            r.cap() == room,
    {
        CharBuf { room, data: Vec::new() }
    }

    /// Writes `b`, if all of it fits.
    pub fn put_piece(&mut self, b: &[u8])
        requires
            old(self).wf(),
        ensures
            final(self).wf(),
            final(self).cap() == old(self).cap(),
            final(self)@ == (if old(self)@.len() + b@.len() <= old(self).cap() {
                old(self)@ + b@
            } else {
                old(self)@
            }),
    {
        let n: usize = b.len();
        if n <= self.room - self.data.len() {
            self.data.extend_from_slice(b);
        }
    }

    /// Gives what is written away.
    pub fn into_bytes(self) -> (r: Vec<u8>)
        ensures
            r@ == self@,
    {
        self.data
    }
}

/// The path of a device node, with an end mark.
pub open spec fn device_node(index: u32) -> Seq<u8> {
    utf8_of("/dev/nvidia") + decimal(index as nat) + utf8_of("\0")
}

/// The path of a device node, with an end mark.
pub fn device_path(index: u32) -> (r: Vec<u8>)
    ensures
        r@ == device_node(index),
{
    let mut w = CharBuf::new(32);
    proof {
        broadcast use vstd::string::is_ascii_spec_bytes;

        reveal_strlit("/dev/nvidia");
        reveal_strlit("\0");
        assert(vstd::string::is_ascii("/dev/nvidia") && vstd::string::is_ascii("\0"));
        assert(utf8_of("/dev/nvidia").len() == 11);
        assert(utf8_of("\0").len() == 1);
    }
    w.put_piece("/dev/nvidia".as_bytes());
    let _width: u8 = digit_count(index);
    let digits: Vec<u8> = decimal_digits(index as u64);
    w.put_piece(digits.as_slice());
    w.put_piece("\0".as_bytes());
    assert(w@ =~= device_node(index));
    w.into_bytes()
}

/// A device that has `total` KiB of memory, of which `free` are free, has used
/// the rest, in whole MiB.
pub proof fn law_used_is_what_is_not_free(a: u32, total: u32, b: u32, free: u32)
    ensures
        ({
            let m = memory_of(le32(a) + le32(total) + le32(b) + le32(free));
            &&& m.1 * 1024 <= total < (m.1 + 1) * 1024
            &&& free <= total ==> m.0 * 1024 <= total - free < (m.0 + 1) * 1024
            &&& free > total ==> m.0 == 0
        }),
{
    let s = le32(a) + le32(total) + le32(b) + le32(free);
    crate::wire::law_word_round_trip(le32(a), total, le32(b) + le32(free));
    assert(s =~= le32(a) + le32(total) + (le32(b) + le32(free)));
    crate::wire::law_word_round_trip(le32(a) + le32(total) + le32(b), free, Seq::empty());
    assert(s =~= le32(a) + le32(total) + le32(b) + le32(free) + Seq::<u8>::empty());
}

/// The latest sample is the last that the answer counts, of at most 72: its
/// share is told in hundredths of a percent, and put down to its process if it
/// names one.
pub proof fn law_latest_sample_counts(params: Seq<u8>, n: int)
    requires
        params.len() == 55888,
        n == (if word_at(params, 8) <= 72 {
            word_at(params, 8)
        } else {
            72
        }),
    ensures
        n == 0 ==> latest_sample(params) == (0u32, None::<(u32, u32)>),
        n > 0 ==> {
            let at = 16 + (n - 1) * 776 + 136;
            let (pct, who) = latest_sample(params);
            &&& pct * 100 <= word_at(params, at) < (pct + 1) * 100
            &&& word_at(params, at + 8) == 0 ==> who is None
            &&& word_at(params, at + 8) != 0 ==> who == Some((word_at(params, at + 8) as u32, pct))
        },
{
}

/// A process that an answer names with at least one MiB is among those with
/// memory, with that many; nobody else is.
pub proof fn law_memory_is_put_down(info: Seq<u8>, n: nat, i: int)
    requires
        info.len() == 14408,
        0 <= i < n <= 200,
    ensures
        ({
            let pid = word_at(info, 8 + i * 72) as u32;
            let bytes = long_at(info, 8 + i * 72 + 24);
            0x10_0000 <= bytes < 0x10_0000_0000_0000 ==> exists|k: int|
                0 <= k < memory_entries(info, n).len() && (#[trigger] memory_entries(info, n)[k]).0
                    == pid && memory_entries(info, n)[k].1.sm_pct == 0 && memory_entries(
                    info,
                    n,
                )[k].1.mem_mib * 0x10_0000 <= bytes < (memory_entries(info, n)[k].1.mem_mib + 1)
                    * 0x10_0000
        }),
        memory_entries(info, n).len() <= n,
        forall|k: int|
            0 <= k < memory_entries(info, n).len() ==> (#[trigger] memory_entries(
                info,
                n,
            )[k]).1.mem_mib > 0,
    decreases n,
{
    let all = memory_entries(info, n);
    let before = memory_entries(info, (n - 1) as nat);
    if n > 1 {
        law_memory_is_put_down(
            info,
            (n - 1) as nat,
            if i < n - 1 {
                i
            } else {
                0
            },
        );
    }
    let bytes = long_at(info, 8 + i * 72 + 24);
    if 0x10_0000 <= bytes < 0x10_0000_0000_0000 {
        if i < n - 1 {
            let pid = word_at(info, 8 + i * 72) as u32;
            let k = choose|k: int|
                0 <= k < before.len() && (#[trigger] before[k]).0 == pid && before[k].1.sm_pct == 0
                    && before[k].1.mem_mib * 0x10_0000 <= bytes < (before[k].1.mem_mib + 1)
                    * 0x10_0000;
            assert(all[k] == before[k]);
        } else {
            let k = all.len() - 1;
            assert(entry_mib(info, i) > 0);
            assert(all[k].1.mem_mib == entry_mib(info, i));
        }
    }
    assert forall|k: int| 0 <= k < all.len() implies (#[trigger] all[k]).1.mem_mib > 0 by {
        if k < before.len() {
            assert(all[k] == before[k]);
        }
    }
}

/// What several devices tell adds up: those whose memory can be read are
/// counted, with their share and their memory, and their processes come one
/// behind the other. Of the others nothing counts.
pub proof fn law_readings_add_up(rs: Seq<Reading>, r: Reading)
    ensures
        r.fb is None ==> device_totals(rs.push(r)) == device_totals(rs) && sampled(rs.push(r))
            == sampled(rs) && with_memory(rs.push(r)) == with_memory(rs),
        r.fb is Some ==> {
            let a = device_totals(rs);
            let b = device_totals(rs.push(r));
            let m = memory_of(r.fb->0@);
            &&& b.0 == a.0 + 1
            &&& b.1 == a.1 + (match r.util {
                Some(u) => latest_sample(u@).0,
                None => 0u32,
            })
            &&& b.2 == a.2 + m.0
            &&& b.3 == a.3 + m.1
        },
        r.fb is Some && r.procs is Some ==> with_memory(rs.push(r)) == with_memory(rs)
            + memory_entries((r.procs->0).1@, (r.procs->0).0 as nat),
        r.fb is Some && r.util is Some ==> match latest_sample(r.util->0@).1 {
            Some((pid, pct)) => sampled(rs.push(r)) == sampled(rs).push(
                (pid, GpuProc { sm_pct: pct, mem_mib: 0 }),
            ),
            None => sampled(rs.push(r)) == sampled(rs),
        },
        device_totals(Seq::empty()) == (0nat, 0nat, 0nat, 0nat),
{
    assert(rs.push(r).drop_last() =~= rs);
}

/// The driver's version is the first word that starts with a digit and holds a
/// dot.
pub proof fn law_version_is_the_first(words: Seq<Seq<u8>>, i: int)
    requires
        0 <= i < words.len(),
        words[i].len() > 0 && 0x30 <= words[i][0] <= 0x39 && words[i].contains(0x2e),
        forall|j: int|
            0 <= j < i ==> !((#[trigger] words[j]).len() > 0 && 0x30 <= words[j][0] <= 0x39
                && words[j].contains(0x2e)),
    ensures
        first_version(words) == Some(words[i]),
    decreases i,
{
    if i > 0 {
        assert(!is_version(words[0]));
        let rest = words.skip(1);
        assert forall|j: int| 0 <= j < i - 1 implies !((#[trigger] rest[j]).len() > 0 && 0x30
            <= rest[j][0] <= 0x39 && rest[j].contains(0x2e)) by {
            assert(rest[j] == words[j + 1]);
        }
        law_version_is_the_first(rest, i - 1);
    }
}

/// Every process that is asked about stands in the question, in its order.
pub proof fn law_listed_are_asked_about(pids: Seq<u8>, n: nat, i: int)
    requires
        0 <= i < n,
        forall|k: int| 0 <= k < n ==> 0 <= #[trigger] word_at(pids, 12 + 4 * k) <= u32::MAX,
    ensures
        asked_entries(pids, n).len() == 72 * n,
        word_at(asked_entries(pids, n), 72 * i) == word_at(pids, 12 + 4 * i),
    decreases n,
{
    let before = asked_entries(pids, (n - 1) as nat);
    let w = word_at(pids, 12 + 4 * (n - 1)) as u32;
    assert(0 <= word_at(pids, 12 + 4 * (n - 1)) <= u32::MAX);
    if n > 1 {
        law_listed_are_asked_about(
            pids,
            (n - 1) as nat,
            if i < n - 1 {
                i
            } else {
                0
            },
        );
    }
    crate::wire::law_word_round_trip(before, w, zeros(68));
    if i < n - 1 {
        let all = asked_entries(pids, n);
        assert(all[72 * i] == before[72 * i] && all[72 * i + 1] == before[72 * i + 1] && all[72 * i
            + 2] == before[72 * i + 2] && all[72 * i + 3] == before[72 * i + 3]);
    }
}

/// Every entry of the card table that is in use counts once: one more in use is
/// one more card.
pub proof fn law_each_card_counts(a: Seq<u8>, b: Seq<u8>, n: nat, i: int)
    requires
        0 <= i < n <= 32,
        a.len() == 32 * 72,
        b.len() == 32 * 72,
        a[72 * i] == 0,
        b[72 * i] != 0,
        forall|j: int| 0 <= j < n && j != i ==> #[trigger] a[72 * j] == b[72 * j],
    ensures
        valid_cards(b, n) == valid_cards(a, n) + 1,
    decreases n,
{
    if i == n - 1 {
        lemma_same_cards(a, b, (n - 1) as nat);
    } else {
        law_each_card_counts(a, b, (n - 1) as nat, i);
        assert(a[72 * (n - 1)] == b[72 * (n - 1)]);
    }
}

/// A table without an entry in use has no card.
pub proof fn law_empty_table_has_no_card(a: Seq<u8>, n: nat)
    requires
        n <= 32,
        a.len() == 32 * 72,
        forall|j: int| 0 <= j < n ==> #[trigger] a[72 * j] == 0,
    ensures
        valid_cards(a, n) == 0,
    decreases n,
{
    if n > 0 {
        law_empty_table_has_no_card(a, (n - 1) as nat);
        assert(a[72 * (n - 1)] == 0);
    }
}

proof fn lemma_same_cards(a: Seq<u8>, b: Seq<u8>, n: nat)
    requires
        n <= 32,
        forall|j: int| 0 <= j < n ==> #[trigger] a[72 * j] == b[72 * j],
    ensures
        valid_cards(a, n) == valid_cards(b, n),
    decreases n,
{
    if n > 0 {
        lemma_same_cards(a, b, (n - 1) as nat);
        assert(a[72 * (n - 1)] == b[72 * (n - 1)]);
    }
}

/// A device is asked for its memory first. One that does not tell it is asked
/// no more; any other for its samples and its processes, whatever became of the
/// samples, and for details exactly if it lists a process.
pub proof fn law_questions_follow(answer: Option<Vec<u8>>)
    ensures
        asked_next(Question::Memory, answer) == Question::Done <==> answer is None,
        asked_next(Question::Memory, answer) == Question::Samples <==> answer is Some,
        asked_next(Question::Samples, answer) == Question::Pids,
        answer is Some && word_at(answer->0@, 8) > 0 ==> asked_next(Question::Pids, answer)
            == Question::PidInfo,
        answer is None || word_at(answer->0@, 8) == 0 ==> asked_next(Question::Pids, answer)
            == Question::Done,
        asked_next(Question::PidInfo, answer) == Question::Done,
        asked_next(Question::Done, answer) == Question::Done,
{
}

/// Of at most 200 listed processes all are asked about, and of more the first
/// 200.
pub proof fn law_two_hundred_are_asked_about(pids: Seq<u8>)
    ensures
        word_at(pids, 8) <= 200 ==> asked_count(pids) == word_at(pids, 8),
        word_at(pids, 8) > 200 ==> asked_count(pids) == 200,
{
}

/// What a process uses on two devices adds up.
pub proof fn law_use_on_devices_adds_up(a: GpuProc, b: GpuProc)
    requires
        a.sm_pct + b.sm_pct <= u32::MAX,
        a.mem_mib + b.mem_mib <= u32::MAX,
    ensures
        proc_sum()(a, b).sm_pct == a.sm_pct + b.sm_pct,
        proc_sum()(a, b).mem_mib == a.mem_mib + b.mem_mib,
{
}

/// Different devices have different nodes.
pub proof fn law_nodes_differ(a: u32, b: u32)
    requires
        device_node(a) == device_node(b),
    ensures
        a == b,
{
    let x = utf8_of("/dev/nvidia");
    let z = utf8_of("\0");
    let da = decimal(a as nat);
    let db = decimal(b as nat);
    assert(device_node(a).len() == x.len() + da.len() + z.len());
    assert(device_node(b).len() == x.len() + db.len() + z.len());
    assert(device_node(a).subrange(x.len() as int, x.len() + da.len() as int) =~= da);
    assert(device_node(b).subrange(x.len() as int, x.len() + db.len() as int) =~= db);
    crate::procfs::law_written_number_is_read(a as u64);
    crate::procfs::law_written_number_is_read(b as u64);
}

/// A version of at most 63 bytes is compared whole.
pub proof fn law_short_version_is_kept(v: Seq<u8>)
    ensures
        clipped_version(v).len() <= 63,
        v.len() <= 63 ==> clipped_version(v) == v,
        v.len() > 63 ==> clipped_version(v) == v.take(63),
{
}

} // verus!
