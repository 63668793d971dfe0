//! Netlink message encoding and decoding (the byte layout of `nlmsghdr`,
//! `nfgenmsg` and netlink attributes).

use vstd::prelude::*;
use vstd::endian::{endianness, Endian};
use vstd::string::StringSliceAdditionalSpecFns;

verus! {

pub const NLM_F_REQUEST: u16 = 0x01;
pub const NLM_F_ACK: u16 = 0x04;
pub const NLM_F_CREATE: u16 = 0x400;

pub const NLMSG_ERROR: u16 = 0x02;
pub const NLMSG_DONE: u16 = 0x03;
pub const NLMSG_MIN_TYPE: u16 = 0x10;

pub const NLA_F_NESTED: u16 = 0x8000;

pub const NFNL_SUBSYS_NFTABLES: u8 = 10;

pub const NFNL_MSG_BATCH_BEGIN: u16 = NLMSG_MIN_TYPE;
pub const NFNL_MSG_BATCH_END: u16 = NLMSG_MIN_TYPE + 1;

pub const NLA_ALIGNTO: usize = 4;

/// Size in bytes of an encoded `nlmsghdr`.
pub const NLMSGHDR_SIZE: usize = 16;
/// Size in bytes of an encoded `nfgenmsg`.
pub const NFGENMSG_SIZE: usize = 4;
/// Size in bytes of an encoded netlink attribute header.
pub const NLATTR_SIZE: usize = 4;

/// `len` rounded up to the next multiple of four.
pub open spec fn spec_nla_align(len: int) -> int {
    ((len + 3) / 4) * 4
}

/// Rounds `len` up to the netlink attribute alignment (four bytes).
pub fn nla_align(len: usize) -> (r: usize)
    requires
        len <= usize::MAX - 3,
    ensures
        r == spec_nla_align(len as int),
        r % 4 == 0,
        len <= r < len + 4,
{
    let x: usize = len + (NLA_ALIGNTO - 1);
    assert(x & !3usize == (x / 4) * 4) by (bit_vector);
    x & !(NLA_ALIGNTO - 1)
}

// ---------------------------------------------------------------------------
// Byte orders

/// A `u16`, least significant byte first.
pub open spec fn u16_le_bytes(v: u16) -> Seq<u8> {
    seq![(v & 0xff) as u8, ((v >> 8) & 0xff) as u8]
}

/// A `u16`, most significant byte first (network byte order).
pub open spec fn u16_be_bytes(v: u16) -> Seq<u8> {
    seq![((v >> 8) & 0xff) as u8, (v & 0xff) as u8]
}

/// A `u32`, least significant byte first.
pub open spec fn u32_le_bytes(v: u32) -> Seq<u8> {
    seq![(v & 0xff) as u8, ((v >> 8) & 0xff) as u8, ((v >> 16) & 0xff) as u8, ((v >> 24) & 0xff) as u8]
}

/// A `u32`, most significant byte first (network byte order).
pub open spec fn u32_be_bytes(v: u32) -> Seq<u8> {
    seq![((v >> 24) & 0xff) as u8, ((v >> 16) & 0xff) as u8, ((v >> 8) & 0xff) as u8, (v & 0xff) as u8]
}

/// A `u64`, most significant byte first (network byte order).
pub open spec fn u64_be_bytes(v: u64) -> Seq<u8> {
    u32_be_bytes((v >> 32) as u32) + u32_be_bytes((v & 0xffff_ffff) as u32)
}

/// The host's memory representation of a `u16`.
pub open spec fn u16_ne_bytes(v: u16) -> Seq<u8> {
    match endianness() {
        Endian::Little => u16_le_bytes(v),
        Endian::Big => u16_be_bytes(v),
    }
}

/// The host's memory representation of a `u32`.
pub open spec fn u32_ne_bytes(v: u32) -> Seq<u8> {
    match endianness() {
        Endian::Little => u32_le_bytes(v),
        Endian::Big => u32_be_bytes(v),
    }
}

/// The `u16` whose host representation starts at `b[0]`.
pub open spec fn u16_from_ne(b: Seq<u8>) -> u16 {
    match endianness() {
        Endian::Little => ((b[0] as u16) | ((b[1] as u16) << 8)) as u16,
        Endian::Big => (((b[0] as u16) << 8) | (b[1] as u16)) as u16,
    }
}

/// The `u32` whose host representation starts at `b[0]`.
pub open spec fn u32_from_ne(b: Seq<u8>) -> u32 {
    match endianness() {
        Endian::Little => ((b[0] as u32) | ((b[1] as u32) << 8) | ((b[2] as u32) << 16) | ((
        b[3] as u32) << 24)) as u32,
        Endian::Big => (((b[0] as u32) << 24) | ((b[1] as u32) << 16) | ((b[2] as u32) << 8) | (
        b[3] as u32)) as u32,
    }
}

/// `u16::to_ne_bytes`: the bytes of `v` in the host's byte order.
#[verifier::external_body]
fn u16_to_ne_bytes(v: u16) -> (r: [u8; 2])
    ensures
        r@ == u16_ne_bytes(v),
{
    v.to_ne_bytes()
}

/// `u32::to_ne_bytes`: the bytes of `v` in the host's byte order.
#[verifier::external_body]
fn u32_to_ne_bytes(v: u32) -> (r: [u8; 4])
    ensures
        r@ == u32_ne_bytes(v),
{
    v.to_ne_bytes()
}

/// `u16::from_ne_bytes`: reads a `u16` stored in the host's byte order.
#[verifier::external_body]
fn u16_from_ne_bytes(b: [u8; 2]) -> (r: u16)
    ensures
        r == u16_from_ne(b@),
{
    u16::from_ne_bytes(b)
}

/// `i32::from_ne_bytes`: reads an `i32` stored in the host's byte order
/// (the two's complement reading of the same bits as a `u32`).
#[verifier::external_body]
fn i32_from_ne_bytes(b: [u8; 4]) -> (r: i32)
    ensures
        r == u32_from_ne(b@) as i32,
{
    i32::from_ne_bytes(b)
}


// ---------------------------------------------------------------------------
// Message layout

/// `s` with `bytes` written over it from position `off`.
pub open spec fn write_at(s: Seq<u8>, off: int, bytes: Seq<u8>) -> Seq<u8> {
    s.take(off) + bytes + s.skip(off + bytes.len())
}

/// `n` zero bytes.
pub open spec fn zeros(n: nat) -> Seq<u8> {
    Seq::new(n, |i: int| 0u8)
}

/// `s` padded with zeros up to a multiple of four bytes.
pub open spec fn pad_to_align(s: Seq<u8>) -> Seq<u8> {
    s + zeros((spec_nla_align(s.len() as int) - s.len()) as nat)
}

/// An encoded `nlmsghdr` (host byte order).
pub open spec fn nlmsghdr_bytes(len: u32, msg_type: u16, flags: u16, seq: u32, pid: u32) -> Seq<u8> {
    u32_ne_bytes(len) + u16_ne_bytes(msg_type) + u16_ne_bytes(flags) + u32_ne_bytes(seq) + u32_ne_bytes(pid)
}

/// An encoded `nfgenmsg`: family, version, then the resource id in network
/// byte order.
pub open spec fn nfgenmsg_bytes(family: u8, version: u8, res_id: u16) -> Seq<u8> {
    seq![family, version] + u16_be_bytes(res_id)
}

/// An attribute header: the attribute's length (truncated to 16 bits, as
/// the field holds) and type, in host byte order.
pub open spec fn attr_header(len: int, attr_type: u16) -> Seq<u8> {
    u16_ne_bytes(len as u16) + u16_ne_bytes(attr_type)
}

/// A netlink message header.
#[derive(Clone, Copy, Debug, Default)]
pub struct NlMsgHdr {
    pub nlmsg_len: u32,
    pub nlmsg_type: u16,
    pub nlmsg_flags: u16,
    pub nlmsg_seq: u32,
    pub nlmsg_pid: u32,
}

/// The nfnetlink message header.
#[derive(Clone, Copy, Debug, Default)]
pub struct NfGenMsg {
    pub nfgen_family: u8,
    pub version: u8,
    pub res_id: u16,
}

/// A netlink attribute header.
#[derive(Clone, Copy, Debug, Default)]
pub struct NlAttr {
    pub nla_len: u16,
    pub nla_type: u16,
}

/// A netlink message under construction.
pub struct MsgBuffer {
    data: Vec<u8>,
}

impl View for MsgBuffer {
    type V = Seq<u8>;

    closed spec fn view(&self) -> Seq<u8> {
        self.data@
    }
}

impl MsgBuffer {
    /// An empty buffer with room for `capacity` bytes.
    pub fn new(capacity: usize) -> (r: Self)
        ensures
            r@ == Seq::<u8>::empty(),
    {
        MsgBuffer { data: Vec::with_capacity(capacity) }
    }

    /// The number of bytes written so far.
    pub fn len(&self) -> (r: usize)
        ensures
            r == self@.len(),
    {
        self.data.len()
    }

    /// The bytes written so far.
    pub fn as_slice(&self) -> (r: &[u8])
        ensures
            r@ == self@,
    {
        self.data.as_slice()
    }

    /// Appends `bytes`.
    pub fn put_bytes(&mut self, bytes: &[u8])
        ensures
            final(self)@ == old(self)@ + bytes@,
    {
        let ghost start = self.data@;
        let mut i: usize = 0;
        while i < bytes.len()
            invariant
                i <= bytes@.len(),
                self.data@ == start + bytes@.take(i as int),
            decreases bytes@.len() - i,
        {
            self.data.push(bytes[i]);
            proof {
                assert(bytes@.take(i + 1) =~= bytes@.take(i as int).push(bytes@[i as int]));
            }
            i += 1;
        }
        proof {
            assert(bytes@.take(bytes@.len() as int) =~= bytes@);
        }
    }

    /// Appends one byte.
    pub fn put_u8(&mut self, val: u8)
        ensures
            final(self)@ == old(self)@.push(val),
    {
        self.data.push(val);
    }

    /// Appends `val` in host byte order.
    pub fn put_u16(&mut self, val: u16)
        ensures
            final(self)@ == old(self)@ + u16_ne_bytes(val),
    {
        let b = u16_to_ne_bytes(val);
        self.put_bytes(&b);
    }

    /// Appends `val` in host byte order.
    pub fn put_u32(&mut self, val: u32)
        ensures
            final(self)@ == old(self)@ + u32_ne_bytes(val),
    {
        let b = u32_to_ne_bytes(val);
        self.put_bytes(&b);
    }

    /// Appends `val` in network byte order.
    pub fn put_u32_be(&mut self, val: u32)
        ensures
            final(self)@ == old(self)@ + u32_be_bytes(val),
    {
        let ghost start = self.data@;
        self.data.push(((val >> 24) & 0xff) as u8);
        self.data.push(((val >> 16) & 0xff) as u8);
        self.data.push(((val >> 8) & 0xff) as u8);
        self.data.push((val & 0xff) as u8);
        assert(self.data@ =~= start + u32_be_bytes(val));
    }

    /// Appends `val` in network byte order.
    pub fn put_u64_be(&mut self, val: u64)
        ensures
            final(self)@ == old(self)@ + u64_be_bytes(val),
    {
        let ghost start = self.data@;
        self.put_u32_be((val >> 32) as u32);
        self.put_u32_be((val & 0xffff_ffff) as u32);
        assert(self.data@ =~= start + u64_be_bytes(val));
    }

    /// Pads with zeros to a multiple of four bytes.
    pub fn align(&mut self)
        requires
            old(self)@.len() <= usize::MAX - 3,
        ensures
            final(self)@ == pad_to_align(old(self)@),
    {
        let ghost start = self.data@;
        let aligned = nla_align(self.data.len());
        while self.data.len() < aligned
            invariant
                start.len() <= self.data@.len() <= aligned,
                aligned == spec_nla_align(start.len() as int),
                self.data@ == start + zeros((self.data@.len() - start.len()) as nat),
            decreases aligned - self.data@.len(),
        {
            let ghost before = self.data@;
            self.data.push(0u8);
            proof {
                assert(self.data@ =~= start + zeros((self.data@.len() - start.len()) as nat));
            }
        }
    }

    /// Appends a netlink message header with a zero length, to be set by
    /// `finalize_nlmsg` or `finalize_nlmsg_at`.
    pub fn put_nlmsghdr(&mut self, msg_type: u16, flags: u16, seq: u32)
        ensures
            final(self)@ == old(self)@ + nlmsghdr_bytes(0, msg_type, flags, seq, 0),
    {
        let hdr = NlMsgHdr {
            nlmsg_len: 0,
            nlmsg_type: msg_type,
            nlmsg_flags: flags,
            nlmsg_seq: seq,
            nlmsg_pid: 0,
        };
        let ghost start = self.data@;
        self.put_u32(hdr.nlmsg_len);
        self.put_u16(hdr.nlmsg_type);
        self.put_u16(hdr.nlmsg_flags);
        self.put_u32(hdr.nlmsg_seq);
        self.put_u32(hdr.nlmsg_pid);
        assert(self.data@ =~= start + nlmsghdr_bytes(0, msg_type, flags, seq, 0));
    }

    /// Appends an nfnetlink header.
    pub fn put_nfgenmsg(&mut self, family: u8, version: u8, res_id: u16)
        ensures
            final(self)@ == old(self)@ + nfgenmsg_bytes(family, version, res_id),
    {
        let msg = NfGenMsg { nfgen_family: family, version, res_id };
        let ghost start = self.data@;
        self.data.push(msg.nfgen_family);
        self.data.push(msg.version);
        self.data.push(((msg.res_id >> 8) & 0xff) as u8);
        self.data.push((msg.res_id & 0xff) as u8);
        assert(self.data@ =~= start + nfgenmsg_bytes(family, version, res_id));
    }

    /// Appends a string attribute: header, the string's UTF-8 bytes, a NUL
    /// terminator, then padding to four bytes.
    pub fn put_attr_str(&mut self, attr_type: u16, val: &str)
        requires
            old(self)@.len() + val.spec_bytes().len() + 8 <= usize::MAX,
        ensures
            final(self)@ == pad_to_align(
                old(self)@ + attr_header(NLATTR_SIZE + val.spec_bytes().len() + 1, attr_type)
                    + val.spec_bytes() + seq![0u8],
            ),
    {
        let bytes = val.as_bytes();
        let len = NLATTR_SIZE + bytes.len() + 1;
        let ghost start = self.data@;
        self.put_u16(len as u16);
        self.put_u16(attr_type);
        self.put_bytes(bytes);
        self.put_u8(0);
        proof {
            assert(self.data@ =~= start + attr_header(len as int, attr_type) + bytes@ + seq![0u8]);
        }
        self.align();
    }

    /// Appends a byte-string attribute, padded to four bytes.
    pub fn put_attr_bytes(&mut self, attr_type: u16, val: &[u8])
        requires
            old(self)@.len() + val@.len() + 8 <= usize::MAX,
        ensures
            final(self)@ == pad_to_align(
                old(self)@ + attr_header(NLATTR_SIZE + val@.len(), attr_type) + val@,
            ),
    {
        let len = NLATTR_SIZE + val.len();
        let ghost start = self.data@;
        self.put_u16(len as u16);
        self.put_u16(attr_type);
        self.put_bytes(val);
        proof {
            assert(self.data@ =~= start + attr_header(len as int, attr_type) + val@);
        }
        self.align();
    }

    /// Appends a 32-bit attribute in network byte order (as nf_tables
    /// expects), padded to four bytes.
    pub fn put_attr_u32_nft(&mut self, attr_type: u16, val: u32)
        requires
            old(self)@.len() + 16 <= usize::MAX,
        ensures
            final(self)@ == pad_to_align(old(self)@ + attr_header(8, attr_type) + u32_be_bytes(val)),
    {
        let len = NLATTR_SIZE + 4;
        let ghost start = self.data@;
        self.put_u16(len as u16);
        self.put_u16(attr_type);
        self.put_u32_be(val);
        proof {
            assert(self.data@ =~= start + attr_header(8, attr_type) + u32_be_bytes(val));
        }
        self.align();
    }

    /// Appends a 64-bit attribute in network byte order (as nf_tables
    /// expects), padded to four bytes.
    pub fn put_attr_u64_nft(&mut self, attr_type: u16, val: u64)
        requires
            old(self)@.len() + 16 <= usize::MAX,
        ensures
            final(self)@ == pad_to_align(old(self)@ + attr_header(12, attr_type) + u64_be_bytes(val)),
    {
        let len = NLATTR_SIZE + 8;
        let ghost start = self.data@;
        self.put_u16(len as u16);
        self.put_u16(attr_type);
        self.put_u64_be(val);
        proof {
            assert(self.data@ =~= start + attr_header(12, attr_type) + u64_be_bytes(val));
        }
        self.align();
    }

    /// Opens a nested attribute: appends its header with a zero length and
    /// the nested flag, and gives the header's offset for `end_nested`.
    pub fn start_nested(&mut self, attr_type: u16) -> (offset: usize)
        ensures
            offset == old(self)@.len(),
            final(self)@ == old(self)@ + attr_header(0, attr_type | NLA_F_NESTED),
    {
        let offset = self.data.len();
        let ghost start = self.data@;
        self.put_u16(0);
        self.put_u16(attr_type | NLA_F_NESTED);
        proof {
            assert(self.data@ =~= start + attr_header(0, attr_type | NLA_F_NESTED));
        }
        offset
    }

    /// Closes the nested attribute whose header is at `offset`: its length
    /// field becomes the number of bytes from `offset` to the end.
    pub fn end_nested(&mut self, offset: usize)
        requires
            offset + 2 <= old(self)@.len(),
        ensures
            final(self)@ == write_at(
                old(self)@,
                offset as int,
                u16_ne_bytes((old(self)@.len() - offset) as u16),
            ),
    {
        let len = (self.data.len() - offset) as u16;
        let b = u16_to_ne_bytes(len);
        let ghost start = self.data@;
        self.data.set(offset, b[0]);
        self.data.set(offset + 1, b[1]);
        proof {
            assert(self.data@ =~= write_at(start, offset as int, b@));
        }
    }

    /// Sets the length field of the message that starts the buffer to the
    /// buffer's length.
    pub fn finalize_nlmsg(&mut self)
        requires
            old(self)@.len() >= 4,
        ensures
            final(self)@ == write_at(old(self)@, 0, u32_ne_bytes(old(self)@.len() as u32)),
    {
        self.finalize_nlmsg_at(0);
    }

    /// Sets the length field of the message starting at `offset` to the
    /// number of bytes from `offset` to the end.
    pub fn finalize_nlmsg_at(&mut self, offset: usize)
        requires
            offset + 4 <= old(self)@.len(),
        ensures
            final(self)@ == write_at(
                old(self)@,
                offset as int,
                u32_ne_bytes((old(self)@.len() - offset) as u32),
            ),
    {
        let len = (self.data.len() - offset) as u32;
        let b = u32_to_ne_bytes(len);
        let ghost start = self.data@;
        self.data.set(offset, b[0]);
        self.data.set(offset + 1, b[1]);
        self.data.set(offset + 2, b[2]);
        self.data.set(offset + 3, b[3]);
        proof {
            assert(self.data@ =~= write_at(start, offset as int, b@));
        }
    }
}

// ---------------------------------------------------------------------------
// Reading replies

/// The type of the message at the start of `buf`, if a whole header is there.
pub open spec fn nlmsg_type_of(buf: Seq<u8>) -> Option<u16> {
    if buf.len() < NLMSGHDR_SIZE {
        None
    } else {
        Some(u16_from_ne(buf.subrange(4, 6)))
    }
}

/// The error code of the `NLMSG_ERROR` message at the start of `buf`.
pub open spec fn nlmsg_error_of(buf: Seq<u8>) -> Option<i32> {
    if nlmsg_type_of(buf) != Some(NLMSG_ERROR) || buf.len() < NLMSGHDR_SIZE + 4 {
        None
    } else {
        Some(u32_from_ne(buf.subrange(16, 20)) as i32)
    }
}

/// The type of the message at the start of `buf`, if a whole header is there.
pub fn get_nlmsg_type(buf: &[u8]) -> (r: Option<u16>)
    ensures
        r == nlmsg_type_of(buf@),
{
    if buf.len() < NLMSGHDR_SIZE {
        return None;
    }
    let b: [u8; 2] = [buf[4], buf[5]];
    assert(b@ =~= buf@.subrange(4, 6));
    Some(u16_from_ne_bytes(b))
}

/// The error code carried by an `NLMSG_ERROR` message at the start of
/// `buf` (0 for an acknowledgement).
pub fn parse_nlmsg_error(buf: &[u8]) -> (r: Option<i32>)
    ensures
        r == nlmsg_error_of(buf@),
{
    match get_nlmsg_type(buf) {
        Some(t) => {
            if t != NLMSG_ERROR {
                return None;
            }
        },
        None => return None,
    }
    if buf.len() < NLMSGHDR_SIZE + 4 {
        return None;
    }
    let b: [u8; 4] = [buf[16], buf[17], buf[18], buf[19]];
    assert(b@ =~= buf@.subrange(16, 20));
    Some(i32_from_ne_bytes(b))
}

/// Whether the message at the start of `buf` is `NLMSG_DONE`.
pub fn is_nlmsg_done(buf: &[u8]) -> (r: bool)
    ensures
        r == (nlmsg_type_of(buf@) == Some(NLMSG_DONE)),
{
    match get_nlmsg_type(buf) {
        Some(t) => t == NLMSG_DONE,
        None => false,
    }
}


// ---------------------------------------------------------------------------
// Socket results

/// What became of a message sent to the kernel.
#[derive(Debug, Clone, Copy, PartialEq, Eq)]
pub enum SendOutcome {
    /// All of it was sent.
    Sent,
    /// Only part of it was sent.
    Incomplete,
    /// The send failed; the reason is in `errno`.
    Failed,
}

/// How the result `sent` of sending a message of `len` bytes reads: a
/// negative result is a failure, a count other than `len` an incomplete
/// send.
pub fn send_outcome(sent: isize, len: usize) -> (r: SendOutcome)
    ensures
        r == if sent < 0 {
            SendOutcome::Failed
        } else if sent != len {
            SendOutcome::Incomplete
        } else {
            SendOutcome::Sent
        },
{
    if sent < 0 {
        SendOutcome::Failed
    } else if sent as usize != len {
        SendOutcome::Incomplete
    } else {
        SendOutcome::Sent
    }
}

/// Linux's `EINTR`: the call was interrupted.
pub const EINTR: i32 = 4;
/// Linux's `EAGAIN` (also `EWOULDBLOCK`): try again.
pub const EAGAIN: i32 = 11;

/// An error after which a receive is worth retrying.
pub open spec fn is_transient(errno: i32) -> bool {
    errno == EAGAIN || errno == EINTR
}

/// What to do after a receive.
#[derive(Debug, Clone, Copy, PartialEq, Eq)]
pub enum RecvAction {
    /// This many bytes were received.
    Received(usize),
    /// Receive again.
    Retry,
    /// Give up; the reason is in `errno`.
    Failed,
}

/// How the result `received` of a receive reads, with `errno` the error
/// code after a failed one: a count is the datagram's length; a transient
/// failure (`EAGAIN`, `EWOULDBLOCK`, `EINTR`) is retried while `retries`
/// lasts, each retry using one up; any other failure is final.
pub fn recv_step(received: isize, errno: i32, retries: &mut u32) -> (r: RecvAction)
    ensures
        received >= 0 ==> r == RecvAction::Received(received as usize) && *final(retries) == *old(retries),
        received < 0 && *old(retries) > 0 && is_transient(errno) ==> r == RecvAction::Retry
            && *final(retries) == *old(retries) - 1,
        received < 0 && !(*old(retries) > 0 && is_transient(errno)) ==> r == RecvAction::Failed
            && *final(retries) == *old(retries),
{
    if received >= 0 {
        return RecvAction::Received(received as usize);
    }
    if *retries > 0 && (errno == EAGAIN || errno == EINTR) {
        *retries = *retries - 1;
        RecvAction::Retry
    } else {
        RecvAction::Failed
    }
}

// ---------------------------------------------------------------------------
// Laws

/// A `u16` written in host byte order reads back unchanged.
pub proof fn lemma_u16_ne_roundtrip(v: u16)
    ensures
        u16_ne_bytes(v).len() == 2,
        u16_from_ne(u16_ne_bytes(v)) == v,
{
    assert(((((v & 0xff) as u8) as u16) | ((((v >> 8) & 0xff) as u8) as u16) << 8) == v)
        by (bit_vector);
    assert((((((v >> 8) & 0xff) as u8) as u16) << 8 | (((v & 0xff) as u8) as u16)) == v)
        by (bit_vector);
}

/// A `u32` written in host byte order reads back unchanged.
pub proof fn lemma_u32_ne_roundtrip(v: u32)
    ensures
        u32_ne_bytes(v).len() == 4,
        u32_from_ne(u32_ne_bytes(v)) == v,
{
    assert(((((v & 0xff) as u8) as u32) | ((((v >> 8) & 0xff) as u8) as u32) << 8 | ((((v >> 16)
        & 0xff) as u8) as u32) << 16 | ((((v >> 24) & 0xff) as u8) as u32) << 24) == v) by (bit_vector);
    assert((((((v >> 24) & 0xff) as u8) as u32) << 24 | ((((v >> 16) & 0xff) as u8) as u32) << 16 | (
    (((v >> 8) & 0xff) as u8) as u32) << 8 | (((v & 0xff) as u8) as u32)) == v) by (bit_vector);
}

/// The type of a message whose header `put_nlmsghdr` wrote is read back
/// by `get_nlmsg_type`.
pub proof fn lemma_header_type_read_back(len: u32, msg_type: u16, flags: u16, seq: u32, pid: u32, rest: Seq<u8>)
    ensures
        nlmsg_type_of(nlmsghdr_bytes(len, msg_type, flags, seq, pid) + rest) == Some(msg_type),
{
    lemma_u16_ne_roundtrip(msg_type);
    lemma_u16_ne_roundtrip(flags);
    lemma_u32_ne_roundtrip(len);
    lemma_u32_ne_roundtrip(seq);
    lemma_u32_ne_roundtrip(pid);
    let b = nlmsghdr_bytes(len, msg_type, flags, seq, pid) + rest;
    assert(b.subrange(4, 6) =~= u16_ne_bytes(msg_type));
}

/// The error code of an `NLMSG_ERROR` message is read back by
/// `parse_nlmsg_error`.
pub proof fn lemma_error_code_read_back(len: u32, flags: u16, seq: u32, pid: u32, code: i32, rest: Seq<u8>)
    ensures
        nlmsg_error_of(nlmsghdr_bytes(len, NLMSG_ERROR, flags, seq, pid) + u32_ne_bytes(code as u32) + rest)
            == Some(code),
{
    lemma_header_type_read_back(len, NLMSG_ERROR, flags, seq, pid, u32_ne_bytes(code as u32) + rest);
    lemma_u32_ne_roundtrip(code as u32);
    let b = nlmsghdr_bytes(len, NLMSG_ERROR, flags, seq, pid) + u32_ne_bytes(code as u32) + rest;
    assert(nlmsghdr_bytes(len, NLMSG_ERROR, flags, seq, pid) + (u32_ne_bytes(code as u32) + rest) =~= b);
    assert(b.subrange(16, 20) =~= u32_ne_bytes(code as u32));
    assert((code as u32) as i32 == code) by (bit_vector);
}

/// After `finalize_nlmsg_at(offset)`, the length field of the message at
/// `offset` reads back as the number of bytes from `offset` to the end.
pub proof fn lemma_finalized_length(s: Seq<u8>, offset: int)
    requires
        0 <= offset,
        offset + 4 <= s.len(),
    ensures
        u32_from_ne(write_at(s, offset, u32_ne_bytes((s.len() - offset) as u32)).subrange(offset, offset + 4))
            == (s.len() - offset) as u32,
        write_at(s, offset, u32_ne_bytes((s.len() - offset) as u32)).len() == s.len(),
{
    let v = (s.len() - offset) as u32;
    lemma_u32_ne_roundtrip(v);
    assert(write_at(s, offset, u32_ne_bytes(v)).subrange(offset, offset + 4) =~= u32_ne_bytes(v));
}

/// After `end_nested(offset)`, the length field of the nested attribute
/// at `offset` reads back as the number of bytes from `offset` to the end.
pub proof fn lemma_nested_length(s: Seq<u8>, offset: int)
    requires
        0 <= offset,
        offset + 2 <= s.len(),
    ensures
        u16_from_ne(write_at(s, offset, u16_ne_bytes((s.len() - offset) as u16)).subrange(offset, offset + 2))
            == (s.len() - offset) as u16,
        write_at(s, offset, u16_ne_bytes((s.len() - offset) as u16)).len() == s.len(),
{
    let v = (s.len() - offset) as u16;
    lemma_u16_ne_roundtrip(v);
    assert(write_at(s, offset, u16_ne_bytes(v)).subrange(offset, offset + 2) =~= u16_ne_bytes(v));
}

/// Padding keeps what was written, adds fewer than four zero bytes, and
/// ends on a multiple of four.
pub proof fn lemma_pad_to_align(s: Seq<u8>)
    ensures
        pad_to_align(s).len() % 4 == 0,
        s.len() <= pad_to_align(s).len() < s.len() + 4,
        pad_to_align(s).take(s.len() as int) == s,
        forall|i: int| s.len() <= i < pad_to_align(s).len() ==> #[trigger] pad_to_align(s)[i] == 0,
{
    assert(pad_to_align(s).take(s.len() as int) =~= s);
}

} // verus!
