//! Darwin's kernel interface as bytes: the messages to the host, to the task
//! and to the device registry, their replies, and the fixed layouts of process
//! records.
//!
//! A message has a header of six words (bits, size, remote port, local port,
//! voucher, number) and a body. The trap that sends it takes the header's
//! fields a second time, packed in pairs into 64-bit arguments.

use crate::wire::{
    le32, long_at, push_word, push_zeros, read_long, read_word, word_at, zeros,
};
use vstd::prelude::*;

verus! {

/// Copy a send right for the remote port, make a send-once right for the
/// local one.
pub const MSGH_BITS: u32 = 0x1513;

/// In a reply's bits: the body carries descriptors.
pub const MSGH_BITS_COMPLEX: u32 = 0x8000_0000;

/// Send to a kernel object and receive the reply, with packed arguments.
pub const MSG_OPTIONS: u64 = 0x8000_0002_0000_0003;

pub const HOST_STATISTICS64_ID: u32 = 219;

pub const HOST_VM_INFO64: u32 = 4;

/// Words of memory statistics.
pub const HOST_VM_INFO64_COUNT: u32 = 38;

pub const HOST_GET_IO_MASTER_ID: u32 = 205;

pub const MACH_PORT_DEALLOCATE_ID: u32 = 3206;

pub const IO_ITERATOR_NEXT_ID: u32 = 2802;

pub const IO_CHILD_ITERATOR_ID: u32 = 2813;

pub const IO_PROPERTIES_BIN_ID: u32 = 2878;

pub const IO_PROPERTY_BIN_ID: u32 = 2879;

pub const IO_MATCHING_SERVICES_BIN_ID: u32 = 2881;

/// Room for the largest request to the registry.
pub const ITER_BUF_SIZE: usize = 4160;

/// Longest name in a request.
pub const IO_NAME_MAX: usize = 128;

/// Page size where the system does not tell one.
pub const DEFAULT_PAGE_SIZE: i32 = 16384;

/// The question for all graphics accelerators: a dictionary with the pair
/// `IOProviderClass`, `AGXAccelerator`.
pub const AGX_MATCHING_BLOB: [u8; 48] = [
    0xd3, 0x00, 0x00, 0x00, 0x01, 0x00, 0x00, 0x01, 0x10, 0x00, 0x00, 0x08, 0x49, 0x4f, 0x50, 0x72,
    0x6f, 0x76, 0x69, 0x64, 0x65, 0x72, 0x43, 0x6c, 0x61, 0x73, 0x73, 0x00, 0x0e, 0x00, 0x00, 0x89,
    0x41, 0x47, 0x58, 0x41, 0x63, 0x63, 0x65, 0x6c, 0x65, 0x72, 0x61, 0x74, 0x6f, 0x72, 0x00, 0x00,
];

/// A message to be sent: its buffer, how much of it is sent, and how much
/// may be received into it.
pub struct Message {
    pub buf: Vec<u8>,
    pub send_size: u32,
    pub remote: u32,
    pub local: u32,
    pub id: u32,
    pub rcv_size: u32,
}

/// The arguments of the sending trap behind the buffer's address.
#[derive(Clone, Copy, Debug, PartialEq, Eq, Structural)]
pub struct TrapArgs {
    pub options: u64,
    pub bits_and_size: u64,
    pub ports: u64,
    pub voucher_and_id: u64,
    pub desc_and_rcv_name: u64,
    pub rcv_size_and_priority: u64,
    pub timeout: u64,
}

/// `lo` and `hi` in one double word.
pub open spec fn packed(lo: u32, hi: u32) -> u64 {
    (lo + hi * 0x1_0000_0000) as u64
}

/// `lo` and `hi` in one double word.
fn pack(lo: u32, hi: u32) -> (r: u64)
    ensures
        r == packed(lo, hi),
{
    lo as u64 + hi as u64 * 0x1_0000_0000
}

/// The header of a request.
pub open spec fn header(size: u32, remote: u32, local: u32, id: u32) -> Seq<u8> {
    le32(MSGH_BITS) + le32(size) + le32(remote) + le32(local) + le32(0) + le32(id)
}

/// The header of a request.
fn push_header(out: &mut Vec<u8>, size: u32, remote: u32, local: u32, id: u32)
    requires
        old(out)@.len() == 0,
    ensures
        final(out)@ == header(size, remote, local, id),
        final(out)@.len() == 24,
{
    push_word(out, MSGH_BITS);
    push_word(out, size);
    push_word(out, remote);
    push_word(out, local);
    push_word(out, 0);
    push_word(out, id);
    assert(out@ =~= header(size, remote, local, id));
}

/// The tag of little-endian data in a body.
pub open spec fn ndr_le() -> Seq<u8> {
    le32(0) + le32(1)
}

/// A message is what it says: a request to `remote` with number `id` and body
/// `body`, in a buffer of `room` bytes.
pub open spec fn is_request(
    m: Message,
    remote: u32,
    local: u32,
    id: u32,
    body: Seq<u8>,
    room: int,
) -> bool {
    let head = header((24 + body.len()) as u32, remote, local, id);
    &&& m.buf@ == head + body + zeros(room - 24 - body.len())
    &&& m.send_size == 24 + body.len()
    &&& m.remote == remote
    &&& m.local == local
    &&& m.id == id
}

/// The arguments with which `m` is sent.
pub fn trap_args(m: &Message) -> (r: TrapArgs)
    ensures
        r == (TrapArgs {
            options: MSG_OPTIONS,
            bits_and_size: packed(MSGH_BITS, m.send_size),
            ports: packed(m.remote, m.local),
            voucher_and_id: packed(0, m.id),
            desc_and_rcv_name: packed(0, m.local),
            rcv_size_and_priority: m.rcv_size as u64,
            timeout: 0,
        }),
{
    TrapArgs {
        options: MSG_OPTIONS,
        bits_and_size: pack(MSGH_BITS, m.send_size),
        ports: pack(m.remote, m.local),
        voucher_and_id: pack(0, m.id),
        desc_and_rcv_name: pack(0, m.local),
        rcv_size_and_priority: m.rcv_size as u64,
        timeout: 0,
    }
}

/// The question for the host's memory statistics; none without both ports.
pub fn vm_statistics64_request(host: u32, reply: u32) -> (r: Option<Message>)
    ensures
        r is Some == (host != 0 && reply != 0),
        r matches Some(m) ==> is_request(
            m,
            host,
            reply,
            HOST_STATISTICS64_ID,
            ndr_le() + le32(HOST_VM_INFO64) + le32(HOST_VM_INFO64_COUNT),
            224,
        ) && m.rcv_size == 224,
{
    if host == 0 || reply == 0 {
        return None;
    }
    let mut buf: Vec<u8> = Vec::new();
    push_header(&mut buf, 40, host, reply, HOST_STATISTICS64_ID);
    push_word(&mut buf, 0);
    push_word(&mut buf, 1);
    push_word(&mut buf, HOST_VM_INFO64);
    push_word(&mut buf, HOST_VM_INFO64_COUNT);
    push_zeros(&mut buf, 184);
    let ghost body = ndr_le() + le32(HOST_VM_INFO64) + le32(HOST_VM_INFO64_COUNT);
    assert(buf@ =~= header(40, host, reply, HOST_STATISTICS64_ID) + body + zeros(184));
    Some(
        Message {
            buf,
            send_size: 40,
            remote: host,
            local: reply,
            id: HOST_STATISTICS64_ID,
            rcv_size: 224,
        },
    )
}

/// The `n` words at `at`.
pub open spec fn words_at(s: Seq<u8>, at: int, n: nat) -> Seq<u32> {
    Seq::new(n, |i: int| word_at(s, at + 4 * i) as u32)
}

/// The memory statistics in the reply, if the trap returned `kr` 0 and the
/// reply's own code is 0.
pub fn vm_statistics64(kr: i32, reply: &[u8]) -> (r: Option<Vec<u32>>)
    requires
        reply@.len() == 224,
    ensures
        match r {
            Some(v) => kr == 0 && word_at(reply@, 32) == 0 && v@ == words_at(reply@, 40, 38),
            None => kr != 0 || word_at(reply@, 32) != 0,
        },
{
    if kr != 0 || read_word(reply, 32) != 0 {
        return None;
    }
    let mut v: Vec<u32> = Vec::new();
    for i in 0..38usize
        invariant
            reply@.len() == 224,
            v@ == words_at(reply@, 40, i as nat),
    {
        v.push(read_word(reply, 40 + 4 * i));
        assert(v@ =~= words_at(reply@, 40, (i + 1) as nat));
    }
    Some(v)
}

/// The question for the registry's main port; none without both ports.
pub fn io_master_request(host: u32, reply: u32) -> (r: Option<Message>)
    ensures
        r is Some == (host != 0 && reply != 0),
        r matches Some(m) ==> is_request(
            m,
            host,
            reply,
            HOST_GET_IO_MASTER_ID,
            Seq::empty(),
            72,
        ) && m.rcv_size == 72,
{
    if host == 0 || reply == 0 {
        return None;
    }
    let mut buf: Vec<u8> = Vec::new();
    push_header(&mut buf, 24, host, reply, HOST_GET_IO_MASTER_ID);
    push_zeros(&mut buf, 48);
    assert(buf@ =~= header(24, host, reply, HOST_GET_IO_MASTER_ID) + Seq::empty() + zeros(48));
    Some(
        Message {
            buf,
            send_size: 24,
            remote: host,
            local: reply,
            id: HOST_GET_IO_MASTER_ID,
            rcv_size: 72,
        },
    )
}

/// The port in a reply with one port descriptor; 0 if the trap failed or the
/// reply is of another shape.
pub open spec fn replied_port(kr: i32, reply: Seq<u8>) -> u32 {
    if kr == 0 && word_at(reply, 0) >= MSGH_BITS_COMPLEX && word_at(reply, 24) == 1 {
        word_at(reply, 28) as u32
    } else {
        0
    }
}

/// The port in a reply with one port descriptor.
pub fn port_reply(kr: i32, reply: &[u8]) -> (r: u32)
    requires
        reply@.len() >= 32,
    ensures
        r == replied_port(kr, reply@),
{
    if kr != 0 || read_word(reply, 0) < MSGH_BITS_COMPLEX || read_word(reply, 24) != 1 {
        return 0;
    }
    read_word(reply, 28)
}

/// The port to use: the one from an earlier answer, if there is one, or else
/// `fresh`. A port of 0 is no answer.
pub fn io_master_port(cached: u32, fresh: u32) -> (r: u32)
    ensures
        r == (if cached != 0 {
            cached
        } else {
            fresh
        }),
{
    if cached != 0 {
        cached
    } else {
        fresh
    }
}

/// The request to release `port`; none if there is nothing to release or no
/// reply port.
pub fn mach_port_deallocate_request(task: u32, reply: u32, port: u32) -> (r: Option<Message>)
    ensures
        r is Some == (port != 0 && reply != 0),
        r matches Some(m) ==> is_request(
            m,
            task,
            reply,
            MACH_PORT_DEALLOCATE_ID,
            ndr_le() + le32(port),
            72,
        ) && m.rcv_size == 68,
{
    if port == 0 || reply == 0 {
        return None;
    }
    let mut buf: Vec<u8> = Vec::new();
    push_header(&mut buf, 36, task, reply, MACH_PORT_DEALLOCATE_ID);
    push_word(&mut buf, 0);
    push_word(&mut buf, 1);
    push_word(&mut buf, port);
    push_zeros(&mut buf, 36);
    assert(buf@ =~= header(36, task, reply, MACH_PORT_DEALLOCATE_ID) + (ndr_le() + le32(port))
        + zeros(36));
    Some(
        Message {
            buf,
            send_size: 36,
            remote: task,
            local: reply,
            id: MACH_PORT_DEALLOCATE_ID,
            rcv_size: 68,
        },
    )
}

/// `w` as a signed number.
pub open spec fn signed(w: int) -> int {
    if w < 0x8000_0000 {
        w
    } else {
        w - 0x1_0000_0000
    }
}

/// How a release of `port` ended: well if there was nothing to release, badly
/// without a reply port; else the trap's result if that is not 0, and else the
/// code in the reply.
pub fn mach_port_deallocate(port: u32, reply_port: u32, kr: i32, reply: &[u8]) -> (r: i32)
    requires
        reply@.len() >= 36,
    ensures
        r == (if port == 0 {
            0
        } else if reply_port == 0 {
            -1
        } else if kr != 0 {
            kr as int
        } else {
            signed(word_at(reply@, 32))
        }),
{
    if port == 0 {
        return 0;
    }
    if reply_port == 0 {
        return -1;
    }
    if kr != 0 {
        return kr;
    }
    let w: u32 = read_word(reply, 32);
    if w < 0x8000_0000 {
        w as i32
    } else {
        (w as i64 - 0x1_0000_0000) as i32
    }
}

/// Zero bytes that bring `n` to a multiple of four.
pub open spec fn padding(n: int) -> int {
    (4 - n % 4) % 4
}

/// Zero bytes that bring `n` to a multiple of four.
fn pad_len(n: usize) -> (r: usize)
    ensures
        r == padding(n as int),
        (n + r) % 4 == 0,
{
    (4 - n % 4) % 4
}

/// The body of a request: a tag of zeros, the length of `data`, `data`, and
/// padding.
pub open spec fn data_body(data: Seq<u8>) -> Seq<u8> {
    zeros(8) + le32(data.len() as u32) + data + zeros(padding(data.len() as int))
}

/// A request to the registry whose reply is a port, with `data` if there is
/// any; none without a reply port or with more data than there is room for.
pub fn iokit_iter_request(id: u32, target: u32, reply: u32, data: Option<&[u8]>) -> (r: Option<
    Message,
>)
    ensures
        r is Some == (reply != 0 && (data matches Some(d) ==> 36 + d@.len() + padding(
            d@.len() as int,
        ) <= ITER_BUF_SIZE)),
        r matches Some(m) ==> is_request(
            m,
            target,
            reply,
            id,
            match data {
                None => Seq::empty(),
                Some(d) => data_body(d@),
            },
            ITER_BUF_SIZE as int,
        ) && m.rcv_size == ITER_BUF_SIZE,
{
    if reply == 0 {
        return None;
    }
    let mut buf: Vec<u8> = Vec::new();
    match data {
        None => {
            push_header(&mut buf, 24, target, reply, id);
            push_zeros(&mut buf, ITER_BUF_SIZE - 24);
            assert(buf@ =~= header(24, target, reply, id) + Seq::empty() + zeros(
                ITER_BUF_SIZE - 24,
            ));
            Some(
                Message {
                    buf,
                    send_size: 24,
                    remote: target,
                    local: reply,
                    id,
                    rcv_size: ITER_BUF_SIZE as u32,
                },
            )
        },
        Some(d) => {
            if d.len() > ITER_BUF_SIZE {
                return None;
            }
            let pad: usize = pad_len(d.len());
            let size: usize = 36 + d.len() + pad;
            if size > ITER_BUF_SIZE {
                return None;
            }
            push_header(&mut buf, size as u32, target, reply, id);
            push_zeros(&mut buf, 8);
            push_word(&mut buf, d.len() as u32);
            buf.extend_from_slice(d);
            push_zeros(&mut buf, pad);
            push_zeros(&mut buf, ITER_BUF_SIZE - size);
            assert(buf@ =~= header(size as u32, target, reply, id) + data_body(d@) + zeros(
                ITER_BUF_SIZE - size,
            ));
            Some(
                Message {
                    buf,
                    send_size: size as u32,
                    remote: target,
                    local: reply,
                    id,
                    rcv_size: ITER_BUF_SIZE as u32,
                },
            )
        },
    }
}

/// The question for all services that match `blob`; none without the main
/// port, and none for a blob that is too long to be sent inline.
pub fn io_service_get_matching_services_bin(master: u32, reply: u32, blob: &[u8]) -> (r: Option<
    Message,
>)
    ensures
        r is Some == (master != 0 && reply != 0 && blob@.len() < 4096),
        r matches Some(m) ==> is_request(
            m,
            master,
            reply,
            IO_MATCHING_SERVICES_BIN_ID,
            data_body(blob@),
            ITER_BUF_SIZE as int,
        ) && m.rcv_size == ITER_BUF_SIZE,
{
    if master == 0 || blob.len() >= 4096 {
        return None;
    }
    iokit_iter_request(IO_MATCHING_SERVICES_BIN_ID, master, reply, Some(blob))
}

/// The request for the next entry of an iterator.
pub fn io_iterator_next(iter: u32, reply: u32) -> (r: Option<Message>)
    ensures
        r is Some == (iter != 0 && reply != 0),
        r matches Some(m) ==> is_request(
            m,
            iter,
            reply,
            IO_ITERATOR_NEXT_ID,
            Seq::empty(),
            ITER_BUF_SIZE as int,
        ) && m.rcv_size == ITER_BUF_SIZE,
{
    if iter == 0 {
        return None;
    }
    iokit_iter_request(IO_ITERATOR_NEXT_ID, iter, reply, None)
}

/// The request for an iterator over the children of `entry` in `plane`.
pub fn io_registry_entry_get_child_iterator(entry: u32, reply: u32, plane: &[u8]) -> (r: Option<
    Message,
>)
    ensures
        r is Some == (entry != 0 && reply != 0 && 0 < plane@.len() <= IO_NAME_MAX),
        r matches Some(m) ==> is_request(
            m,
            entry,
            reply,
            IO_CHILD_ITERATOR_ID,
            zeros(12) + le32(plane@.len() as u32) + plane@ + zeros(padding(plane@.len() as int)),
            256,
        ) && m.rcv_size == 256,
{
    if entry == 0 || reply == 0 || plane.len() == 0 || plane.len() > IO_NAME_MAX {
        return None;
    }
    let pad: usize = pad_len(plane.len());
    let size: usize = 40 + plane.len() + pad;
    let mut buf: Vec<u8> = Vec::new();
    push_header(&mut buf, size as u32, entry, reply, IO_CHILD_ITERATOR_ID);
    push_zeros(&mut buf, 12);
    push_word(&mut buf, plane.len() as u32);
    buf.extend_from_slice(plane);
    push_zeros(&mut buf, pad);
    push_zeros(&mut buf, 256 - size);
    assert(buf@ =~= header(size as u32, entry, reply, IO_CHILD_ITERATOR_ID) + (zeros(12) + le32(
        plane@.len() as u32,
    ) + plane@ + zeros(padding(plane@.len() as int))) + zeros(256 - size));
    Some(
        Message {
            buf,
            send_size: size as u32,
            remote: entry,
            local: reply,
            id: IO_CHILD_ITERATOR_ID,
            rcv_size: 256,
        },
    )
}

/// The request for all properties of `entry`.
pub fn io_registry_entry_get_properties_bin(entry: u32, reply: u32) -> (r: Option<Message>)
    ensures
        r is Some == (entry != 0 && reply != 0),
        r matches Some(m) ==> is_request(
            m,
            entry,
            reply,
            IO_PROPERTIES_BIN_ID,
            Seq::empty(),
            256,
        ) && m.rcv_size == 128,
{
    if entry == 0 || reply == 0 {
        return None;
    }
    let mut buf: Vec<u8> = Vec::new();
    push_header(&mut buf, 24, entry, reply, IO_PROPERTIES_BIN_ID);
    push_zeros(&mut buf, 232);
    assert(buf@ =~= header(24, entry, reply, IO_PROPERTIES_BIN_ID) + Seq::empty() + zeros(232));
    Some(
        Message {
            buf,
            send_size: 24,
            remote: entry,
            local: reply,
            id: IO_PROPERTIES_BIN_ID,
            rcv_size: 128,
        },
    )
}

/// The body of a request for one property: an empty plane, the name, and no
/// options.
pub open spec fn property_body(name: Seq<u8>) -> Seq<u8> {
    zeros(12) + le32(1) + zeros(8) + le32(name.len() as u32) + name + zeros(
        padding(name.len() as int),
    ) + zeros(4)
}

/// The request for the property `name` of `entry`.
pub fn io_registry_entry_get_property_bin(entry: u32, reply: u32, name: &[u8]) -> (r: Option<
    Message,
>)
    ensures
        r is Some == (entry != 0 && reply != 0 && 0 < name@.len() <= IO_NAME_MAX),
        r matches Some(m) ==> is_request(
            m,
            entry,
            reply,
            IO_PROPERTY_BIN_ID,
            property_body(name@),
            256,
        ) && m.rcv_size == 128,
{
    if entry == 0 || reply == 0 || name.len() == 0 || name.len() > IO_NAME_MAX {
        return None;
    }
    let pad: usize = pad_len(name.len());
    let size: usize = 56 + name.len() + pad;
    let mut buf: Vec<u8> = Vec::new();
    push_header(&mut buf, size as u32, entry, reply, IO_PROPERTY_BIN_ID);
    push_zeros(&mut buf, 12);
    push_word(&mut buf, 1);
    push_zeros(&mut buf, 8);
    push_word(&mut buf, name.len() as u32);
    buf.extend_from_slice(name);
    push_zeros(&mut buf, pad);
    push_zeros(&mut buf, 4);
    push_zeros(&mut buf, 256 - size);
    assert(buf@ =~= header(size as u32, entry, reply, IO_PROPERTY_BIN_ID) + property_body(name@)
        + zeros(256 - size));
    Some(
        Message {
            buf,
            send_size: size as u32,
            remote: entry,
            local: reply,
            id: IO_PROPERTY_BIN_ID,
            rcv_size: 128,
        },
    )
}

/// Pages that the kernel has mapped for a reply.
#[derive(Clone, Copy, Debug, PartialEq, Eq, Structural)]
pub struct OolBuffer {
    pub addr: u64,
    pub size: u32,
}

/// The pages that a reply tells of: one descriptor of the right type, with an
/// address and a size.
pub open spec fn replied_pages(reply: Seq<u8>) -> Option<OolBuffer> {
    if word_at(reply, 0) >= MSGH_BITS_COMPLEX && word_at(reply, 24) == 1 && reply[39] == 1
        && long_at(reply, 28) != 0 && word_at(reply, 40) != 0 {
        Some(OolBuffer { addr: long_at(reply, 28) as u64, size: word_at(reply, 40) as u32 })
    } else {
        None
    }
}

/// The pages that a reply tells of.
pub fn parse_ool_reply(reply: &[u8]) -> (r: Option<OolBuffer>)
    requires
        reply@.len() == 128,
    ensures
        r == replied_pages(reply@),
{
    if read_word(reply, 0) < MSGH_BITS_COMPLEX || read_word(reply, 24) != 1 {
        return None;
    }
    let addr: u64 = read_long(reply, 28);
    let size: u32 = read_word(reply, 40);
    if reply[39] != 1 || addr == 0 || size == 0 {
        return None;
    }
    Some(OolBuffer { addr, size })
}

/// A region of a task's memory.
#[derive(Clone, Copy, Debug, PartialEq, Eq, Structural)]
pub struct ProcRegionInfo {
    pub pri_protection: u32,
    pub pri_address: u64,
    pub pri_size: u64,
}

/// Bytes of a region record.
pub const REGION_INFO_SIZE: usize = 96;

/// The region in a record.
pub fn region_info(record: &[u8]) -> (r: ProcRegionInfo)
    requires
        record@.len() == REGION_INFO_SIZE,
    ensures
        r.pri_protection == word_at(record@, 0),
        r.pri_address == long_at(record@, 80),
        r.pri_size == long_at(record@, 88),
{
    ProcRegionInfo {
        pri_protection: read_word(record, 0),
        pri_address: read_long(record, 80),
        pri_size: read_long(record, 88),
    }
}

/// What a task has used.
#[derive(Clone, Copy, Debug, PartialEq, Eq, Structural)]
pub struct ProcTaskInfo {
    pub pti_resident_size: u64,
    pub pti_total_user: u64,
    pub pti_total_system: u64,
}

/// Bytes of a task record.
pub const TASK_INFO_SIZE: usize = 96;

/// What a task has used, from its record.
pub fn task_info(record: &[u8]) -> (r: ProcTaskInfo)
    requires
        record@.len() == TASK_INFO_SIZE,
    ensures
        r.pti_resident_size == long_at(record@, 8),
        r.pti_total_user == long_at(record@, 16),
        r.pti_total_system == long_at(record@, 24),
{
    ProcTaskInfo {
        pti_resident_size: read_long(record, 8),
        pti_total_user: read_long(record, 16),
        pti_total_system: read_long(record, 24),
    }
}

/// The addresses that must stay mapped: the arena's range, the program's own
/// code, and the stack.
#[derive(Clone, Copy, Debug, PartialEq, Eq, Structural)]
pub struct Anchors {
    pub arena_lo: u64,
    pub arena_hi: u64,
    pub code: u64,
    pub stack: u64,
}

/// Regions of at least this many bytes are reservations, and stay.
pub const HUGE_RESERVATION: u64 = 0x200_0000;

/// Whether a region must stay mapped.
pub open spec fn must_keep(info: ProcRegionInfo, a: Anchors) -> bool {
    let lo = info.pri_address;
    let hi = info.pri_address + info.pri_size;
    ||| a.arena_lo < hi && lo < a.arena_hi
    ||| lo <= a.code < hi
    ||| lo <= a.stack < hi
    ||| info.pri_size >= HUGE_RESERVATION
}

/// Whether a region must stay mapped.
pub fn keep_region(info: ProcRegionInfo, a: Anchors) -> (r: bool)
    requires
        info.pri_address + info.pri_size <= u64::MAX,
    ensures
        r == must_keep(info, a),
{
    let lo: u64 = info.pri_address;
    let hi: u64 = info.pri_address + info.pri_size;
    let arena: bool = a.arena_lo < hi && lo < a.arena_hi;
    let code: bool = lo <= a.code && a.code < hi;
    let stack: bool = lo <= a.stack && a.stack < hi;
    arena || code || stack || info.pri_size >= HUGE_RESERVATION
}

/// Regions that one walk looks at.
pub const MAX_REGIONS: u32 = 256;

/// A walk over the regions of a task.
#[derive(Clone, Copy, Debug, PartialEq, Eq, Structural)]
pub struct RegionWalk {
    /// Where to look next.
    pub addr: u64,
    /// Bytes released so far.
    pub total: u64,
    /// Regions that may still be looked at.
    pub left: u32,
}

/// The walk at its start.
pub fn region_walk() -> (r: RegionWalk)
    ensures
        r == (RegionWalk { addr: 0, total: 0, left: MAX_REGIONS }),
{
    RegionWalk { addr: 0, total: 0, left: MAX_REGIONS }
}

/// The walk behind `info`, which was released if `freed`.
pub open spec fn walked(w: RegionWalk, info: ProcRegionInfo, freed: bool) -> RegionWalk {
    RegionWalk {
        addr: (info.pri_address + info.pri_size) as u64,
        total: if freed {
            (w.total + info.pri_size) as u64
        } else {
            w.total
        },
        left: (w.left - 1) as u32,
    }
}

/// Takes the region `info` into the walk. `kr` is the result of releasing it
/// and counts only for a region that need not stay.
pub fn unmap_idle_state(w: RegionWalk, info: ProcRegionInfo, a: Anchors, kr: i32) -> (r: RegionWalk)
    requires
        w.left > 0,
        info.pri_address + info.pri_size <= u64::MAX,
        w.total + info.pri_size <= u64::MAX,
    ensures
        r == walked(w, info, !must_keep(info, a) && kr == 0),
        w.total <= w.addr <= info.pri_address ==> r.total <= r.addr,
{
    let freed: bool = !keep_region(info, a) && kr == 0;
    RegionWalk {
        addr: info.pri_address + info.pri_size,
        total: if freed {
            w.total + info.pri_size
        } else {
            w.total
        },
        left: w.left - 1,
    }
}

/// First and last address of the region that holds `addr`; `info` is the
/// first region that ends behind `addr`.
pub fn region_containing(info: ProcRegionInfo, addr: u64) -> (r: Option<(u64, u64)>)
    requires
        info.pri_address + info.pri_size <= u64::MAX,
    ensures
        r == (if info.pri_address <= addr < info.pri_address + info.pri_size {
            Some((info.pri_address, (info.pri_address + info.pri_size) as u64))
        } else {
            None
        }),
{
    let end: u64 = info.pri_address + info.pri_size;
    if addr < info.pri_address || addr >= end {
        return None;
    }
    Some((info.pri_address, end))
}

/// Bytes of a process record.
pub const BSD_INFO_SIZE: usize = 232;

/// Where it holds the process's name.
pub const PBI_NAME_OFFSET: usize = 64;

/// Longest name in it.
pub const PBI_NAME_MAX: usize = 32;

/// The first zero byte of `s` from `i` on, or its length.
pub open spec fn name_end(s: Seq<u8>, i: nat) -> nat
    decreases s.len() - i,
{
    if i >= s.len() {
        s.len()
    } else if s[i as int] == 0 {
        i
    } else {
        name_end(s, i + 1)
    }
}

/// The name in the process record `record`, of which `n` bytes were filled:
/// up to its end mark, and at most one byte shorter than `room`.
pub open spec fn process_name(record: Seq<u8>, n: int, room: nat) -> Seq<u8> {
    let field = record.subrange(64, 96);
    let end = name_end(field, 0);
    if n < 96 || room == 0 {
        Seq::empty()
    } else if end < room {
        field.take(end as int)
    } else {
        field.take(room - 1)
    }
}

/// Copies the name out of a process record, with an end mark if there is
/// room. Returns its length.
pub fn proc_name_into(record: &[u8], n: i32, buf: &mut Vec<u8>) -> (r: i32)
    requires
        record@.len() == BSD_INFO_SIZE,
    ensures
        r == process_name(record@, n as int, old(buf)@.len()).len(),
        final(buf)@.len() == old(buf)@.len(),
        final(buf)@.take(r as int) == process_name(record@, n as int, old(buf)@.len()),
        n >= 96 && old(buf)@.len() > 0 ==> final(buf)@[r as int] == 0,
        n >= 96 ==> forall|i: int|
            r < i < old(buf)@.len() ==> #[trigger] final(buf)@[i] == old(buf)@[i],
        n < 96 ==> final(buf)@ == old(buf)@,
{
    let ghost room = buf@.len();
    let ghost field = record@.subrange(64, 96);
    let cap: usize = buf.len();
    if n < 96 || cap == 0 {
        assert(buf@.take(0) =~= process_name(record@, n as int, room));
        return 0;
    }
    let mut end: usize = 0;
    while end < PBI_NAME_MAX && record[PBI_NAME_OFFSET + end] != 0
        invariant
            record@.len() == BSD_INFO_SIZE,
            field == record@.subrange(64, 96),
            end <= PBI_NAME_MAX,
            name_end(field, 0) == name_end(field, end as nat),
        decreases PBI_NAME_MAX - end,
    {
        end = end + 1;
    }
    let copy: usize = if end < cap { end } else { cap - 1 };
    let mut i: usize = 0;
    while i < copy
        invariant
            i <= copy,
            copy <= 32,
            copy < room,
            record@.len() == BSD_INFO_SIZE,
            field == record@.subrange(64, 96),
            buf@.len() == room,
            room == old(buf)@.len(),
            buf@.take(i as int) == field.take(i as int),
            forall|k: int| i <= k < room ==> #[trigger] buf@[k] == old(buf)@[k],
        decreases copy - i,
    {
        let ghost was = buf@;
        let b: u8 = record[PBI_NAME_OFFSET + i];
        buf.set(i, b);
        assert(buf@.take(i + 1) =~= was.take(i as int).push(b));
        assert(field.take(i + 1) =~= field.take(i as int).push(b));
        i = i + 1;
    }
    let ghost was = buf@;
    buf.set(copy, 0);
    assert(buf@.take(copy as int) =~= was.take(copy as int));
    copy as i32
}

/// The number of processes in an answer of `bytes` bytes; a negative answer is
/// an error and stays as it is.
pub fn pid_count(bytes: i32) -> (r: i32)
    ensures
        r == (if bytes < 0 {
            bytes as int
        } else {
            bytes as int / 4
        }),
{
    if bytes < 0 {
        bytes
    } else {
        bytes / 4
    }
}

/// The page size that the system told, if it could be asked.
pub fn hw_pagesize(ret: i32, n: i32) -> (r: i32)
    ensures
        r == (if ret == 0 && n > 0 {
            n
        } else {
            DEFAULT_PAGE_SIZE
        }),
        r > 0,
{
    if ret == 0 && n > 0 {
        n
    } else {
        DEFAULT_PAGE_SIZE
    }
}

/// The number of processors that the system told, if it could be asked.
pub fn hw_activecpu(ret: i32, n: i32) -> (r: i32)
    ensures
        r == (if ret == 0 && n > 0 {
            n
        } else {
            1
        }),
        r > 0,
{
    if ret == 0 && n > 0 {
        n
    } else {
        1
    }
}

/// `n / d` in hundredths, rounded to the nearest.
pub open spec fn hundredths(n: int, d: int) -> int {
    (n * 200 + d) / (2 * d)
}

/// The three load averages in hundredths. `ret` is the result of asking,
/// `scale` the divisor of the three counts.
pub fn vm_loadavg(ret: i32, counts: (u32, u32, u32), scale: i64) -> (r: Option<(u64, u64, u64)>)
    ensures
        r is Some == (ret == 0 && scale > 0),
        r matches Some(l) ==> {
            &&& l.0 == hundredths(counts.0 as int, scale as int)
            &&& l.1 == hundredths(counts.1 as int, scale as int)
            &&& l.2 == hundredths(counts.2 as int, scale as int)
        },
{
    if ret != 0 || scale <= 0 {
        return None;
    }
    Some((scaled(counts.0, scale), scaled(counts.1, scale), scaled(counts.2, scale)))
}

/// `n / d` in hundredths, rounded to the nearest.
fn scaled(n: u32, d: i64) -> (r: u64)
    requires
        d > 0,
    ensures
        r == hundredths(n as int, d as int),
{
    let num: u128 = n as u128 * 200 + d as u128;
    let den: u128 = d as u128 * 2;
    proof {
        assert(num / den <= num) by (nonlinear_arith)
            requires
                den >= 1,
                num >= 0,
        ;
        assert(num / den <= 0x1_0000_0000 * 200) by (nonlinear_arith)
            requires
                num == n * 200 + d,
                den == d * 2,
                d >= 1,
                n < 0x1_0000_0000,
        ;
    }
    (num / den) as u64
}

/// A request can be read back: its header says how long it is, between which
/// ports it goes and what is asked, and the body stands behind it. The rest of
/// the buffer is empty.
pub proof fn law_request_is_read_back(
    m: Message,
    remote: u32,
    local: u32,
    id: u32,
    body: Seq<u8>,
    room: int,
)
    requires
        is_request(m, remote, local, id, body, room),
        24 + body.len() <= room <= u32::MAX,
    ensures
        m.buf@.len() == room,
        word_at(m.buf@, 0) == 0x1513,
        word_at(m.buf@, 4) == m.send_size == 24 + body.len(),
        word_at(m.buf@, 8) == m.remote == remote,
        word_at(m.buf@, 12) == m.local == local,
        word_at(m.buf@, 16) == 0,
        word_at(m.buf@, 20) == m.id == id,
        m.buf@.subrange(24, m.send_size as int) == body,
        forall|i: int| m.send_size <= i < room ==> #[trigger] m.buf@[i] == 0,
{
    let s = m.buf@;
    let size = (24 + body.len()) as u32;
    let head = header(size, remote, local, id);
    let none = Seq::<u8>::empty();
    crate::wire::law_word_round_trip(none, MSGH_BITS, none);
    crate::wire::law_word_round_trip(none, size, none);
    crate::wire::law_word_round_trip(none, remote, none);
    crate::wire::law_word_round_trip(none, local, none);
    crate::wire::law_word_round_trip(none, 0, none);
    crate::wire::law_word_round_trip(none, id, none);
    assert(none + le32(MSGH_BITS) + none =~= le32(MSGH_BITS));
    assert(none + le32(size) + none =~= le32(size));
    assert(none + le32(remote) + none =~= le32(remote));
    assert(none + le32(local) + none =~= le32(local));
    assert(none + le32(0) + none =~= le32(0));
    assert(none + le32(id) + none =~= le32(id));
    assert(head.len() == 24);
    assert(forall|i: int| 0 <= i < 24 ==> s[i] == #[trigger] head[i]);
    assert(forall|i: int| 0 <= i < 4 ==> head[i] == #[trigger] le32(MSGH_BITS)[i]);
    assert(forall|i: int| 0 <= i < 4 ==> head[4 + i] == #[trigger] le32(size)[i]);
    assert(forall|i: int| 0 <= i < 4 ==> head[8 + i] == #[trigger] le32(remote)[i]);
    assert(forall|i: int| 0 <= i < 4 ==> head[12 + i] == #[trigger] le32(local)[i]);
    assert(forall|i: int| 0 <= i < 4 ==> head[16 + i] == #[trigger] le32(0)[i]);
    assert(forall|i: int| 0 <= i < 4 ==> head[20 + i] == #[trigger] le32(id)[i]);
    assert(word_at(s, 0) == word_at(le32(MSGH_BITS), 0));
    assert(word_at(s, 4) == word_at(le32(size), 0));
    assert(word_at(s, 8) == word_at(le32(remote), 0));
    assert(word_at(s, 12) == word_at(le32(local), 0));
    assert(word_at(s, 16) == word_at(le32(0), 0));
    assert(word_at(s, 20) == word_at(le32(id), 0));
    assert(s.subrange(24, m.send_size as int) =~= body);
}

/// The data in a body can be read back: its length stands before it, and the
/// padding behind it brings the body to whole words.
pub proof fn law_data_is_read_back(data: Seq<u8>)
    requires
        data.len() <= 4096,
    ensures
        word_at(data_body(data), 8) == data.len(),
        data_body(data).subrange(12, data.len() as int + 12) == data,
        data_body(data).len() % 4 == 0,
        12 + data.len() <= data_body(data).len() < 16 + data.len(),
        forall|i: int|
            0 <= i < 8 || 12 + data.len() <= i < data_body(data).len() ==> #[trigger] data_body(
                data,
            )[i] == 0,
{
    let s = data_body(data);
    let n = data.len() as u32;
    crate::wire::law_word_round_trip(zeros(8), n, data + zeros(padding(data.len() as int)));
    assert(s =~= zeros(8) + le32(n) + (data + zeros(padding(data.len() as int))));
    assert(s.subrange(12, data.len() as int + 12) =~= data);
}

/// The name in the body of a request for a property can be read back, behind
/// an empty plane's length; no options stand behind it.
pub proof fn law_property_name_is_read_back(name: Seq<u8>)
    requires
        name.len() <= 128,
    ensures
        word_at(property_body(name), 12) == 1,
        word_at(property_body(name), 24) == name.len(),
        property_body(name).subrange(28, name.len() as int + 28) == name,
        property_body(name).len() % 4 == 0,
        32 + name.len() <= property_body(name).len() < 36 + name.len(),
        forall|i: int|
            0 <= i < 12 || 16 <= i < 24 || 28 + name.len() <= i < property_body(name).len()
                ==> #[trigger] property_body(name)[i] == 0,
{
    let s = property_body(name);
    let n = name.len() as u32;
    let end = zeros(padding(name.len() as int)) + zeros(4);
    let front = zeros(12) + le32(1) + zeros(8);
    crate::wire::law_word_round_trip(zeros(12), 1, zeros(8) + le32(n) + name + end);
    assert(s =~= zeros(12) + le32(1) + (zeros(8) + le32(n) + name + end));
    crate::wire::law_word_round_trip(front, n, name + end);
    assert(s =~= front + le32(n) + (name + end));
    assert(s.subrange(28, name.len() as int + 28) =~= name);
    assert forall|i: int|
        0 <= i < 12 || 16 <= i < 24 || 28 + name.len() <= i < s.len() implies #[trigger] s[i]
        == 0 by {
        if i >= 28 + name.len() {
            assert(s[i] == end[i - 28 - name.len()]);
        }
    }
}

/// Two words in one double word are its lower and its upper half.
pub proof fn law_packed_words_come_apart(lo: u32, hi: u32)
    ensures
        packed(lo, hi) % 0x1_0000_0000 == lo,
        packed(lo, hi) / 0x1_0000_0000 == hi,
{
}

/// A port that a reply carries is what was replied; a failed call, a reply
/// without descriptors and one with several have none.
pub proof fn law_port_is_found(kr: i32, bits: u32, head: Seq<u8>, n: u32, port: u32, rest: Seq<u8>)
    requires
        head.len() == 20,
    ensures
        ({
            let reply = le32(bits) + head + le32(n) + le32(port) + rest;
            replied_port(kr, reply) == if kr == 0 && bits >= 0x8000_0000 && n == 1 {
                port
            } else {
                0
            }
        }),
{
    let reply = le32(bits) + head + le32(n) + le32(port) + rest;
    crate::wire::law_word_round_trip(Seq::empty(), bits, head + le32(n) + le32(port) + rest);
    assert(reply =~= Seq::<u8>::empty() + le32(bits) + (head + le32(n) + le32(port) + rest));
    crate::wire::law_word_round_trip(le32(bits) + head, n, le32(port) + rest);
    assert(reply =~= le32(bits) + head + le32(n) + (le32(port) + rest));
    crate::wire::law_word_round_trip(le32(bits) + head + le32(n), port, rest);
}

/// A code in a reply is the number of 32 bits with the same bits.
pub proof fn law_signed_is_the_same_modulo(w: int)
    requires
        0 <= w < 0x1_0000_0000,
    ensures
        -0x8000_0000 <= signed(w) < 0x8000_0000,
        signed(w) == w || signed(w) + 0x1_0000_0000 == w,
{
}

/// A region that is released holds no address that is needed, and is no
/// reservation.
pub proof fn law_released_region_is_not_needed(info: ProcRegionInfo, a: Anchors, x: int)
    requires
        !must_keep(info, a),
        info.pri_address <= x < info.pri_address + info.pri_size,
    ensures
        x != a.code,
        x != a.stack,
        !(a.arena_lo <= x < a.arena_hi),
        info.pri_size < 0x200_0000,
{
}

/// A region that stays though it is no reservation holds an address that is
/// needed.
pub proof fn law_kept_region_is_needed(info: ProcRegionInfo, a: Anchors) -> (x: int)
    requires
        must_keep(info, a),
        0 < info.pri_size < 0x200_0000,
        a.arena_lo < a.arena_hi,
    ensures
        info.pri_address <= x < info.pri_address + info.pri_size,
        x == a.code || x == a.stack || a.arena_lo <= x < a.arena_hi,
{
    let lo = info.pri_address as int;
    let hi = info.pri_address + info.pri_size;
    if lo <= a.code < hi {
        a.code as int
    } else if lo <= a.stack < hi {
        a.stack as int
    } else if lo <= a.arena_lo {
        a.arena_lo as int
    } else {
        lo
    }
}

/// A walk goes on right behind the region it has looked at, looks at one fewer
/// from then on, and counts the region's bytes if it was released.
pub proof fn law_walk_counts_the_released(w: RegionWalk, info: ProcRegionInfo)
    requires
        w.left > 0,
        info.pri_address + info.pri_size <= u64::MAX,
        w.total + info.pri_size <= u64::MAX,
    ensures
        forall|freed: bool| #[trigger]
            walked(w, info, freed).addr == info.pri_address + info.pri_size && walked(
                w,
                info,
                freed,
            ).left == w.left - 1,
        walked(w, info, true).total - w.total == info.pri_size,
        walked(w, info, false).total == w.total,
{
}

/// A name of at most 32 bytes in a process record is read back, as far as there
/// is room for it and an end mark.
pub proof fn law_process_name_is_read_back(
    before: Seq<u8>,
    name: Seq<u8>,
    rest: Seq<u8>,
    n: int,
    room: nat,
)
    requires
        before.len() == 64,
        name.len() <= 32,
        forall|i: int| 0 <= i < name.len() ==> #[trigger] name[i] != 0,
        name.len() < 32 ==> rest.len() > 0 && rest[0] == 0,
        name.len() + rest.len() >= 32,
        n >= 96,
        room > 0,
    ensures
        name.len() < room ==> process_name(before + name + rest, n, room) == name,
        name.len() >= room ==> process_name(before + name + rest, n, room) == name.take(room - 1),
        process_name(before + name + rest, 95, room).len() == 0,
{
    let record = before + name + rest;
    let field = record.subrange(64, 96);
    assert(field.take(name.len() as int) =~= name);
    assert(name.len() < 32 ==> field[name.len() as int] == rest[0]);
    assert forall|i: int| 0 <= i < name.len() implies #[trigger] field[i] != 0 by {
        assert(field[i] == name[i]);
    }
    lemma_name_end(field, 0, name.len());
    if name.len() >= room {
        assert(field.take(room - 1) =~= name.take(room - 1));
    }
}

proof fn lemma_name_end(s: Seq<u8>, i: nat, end: nat)
    requires
        i <= end <= s.len(),
        forall|j: int| i <= j < end ==> #[trigger] s[j] != 0,
        end < s.len() ==> s[end as int] == 0,
    ensures
        name_end(s, i) == end,
    decreases end - i,
{
    if i < end {
        lemma_name_end(s, i + 1, end);
    }
}

/// A load in hundredths is the nearest to a hundred times the quotient.
pub proof fn law_hundredths_are_nearest(n: int, d: int)
    requires
        n >= 0,
        d > 0,
    ensures
        (2 * hundredths(n, d) - 1) * d <= 200 * n < (2 * hundredths(n, d) + 1) * d,
{
    let q = hundredths(n, d);
    let m = n * 200 + d;
    vstd::arithmetic::div_mod::lemma_fundamental_div_mod(m, 2 * d);
    vstd::arithmetic::div_mod::lemma_mod_bound(m, 2 * d);
    assert((2 * d) * q == 2 * (q * d)) by (nonlinear_arith);
    assert((2 * q - 1) * d == 2 * (q * d) - d && (2 * q + 1) * d == 2 * (q * d) + d)
        by (nonlinear_arith);
}

} // verus!
