//! nf_tables set-element requests: the netlink batch that adds elements to
//! a set, and the reading of the kernel's replies.

use vstd::prelude::*;
use vstd::string::StringSliceAdditionalSpecFns;
use crate::netlink::{
    attr_header, get_nlmsg_type, spec_nla_align, is_nlmsg_done, nfgenmsg_bytes, nlmsg_error_of, nlmsg_type_of,
    nlmsghdr_bytes, pad_to_align, parse_nlmsg_error, u32_ne_bytes, u16_ne_bytes, u64_be_bytes,
    write_at, MsgBuffer, NFNL_MSG_BATCH_BEGIN, NFNL_MSG_BATCH_END, NFNL_SUBSYS_NFTABLES,
    NLA_F_NESTED, NLMSG_DONE, NLMSG_ERROR, NLM_F_ACK, NLM_F_CREATE, NLM_F_REQUEST,
};
use crate::text::{spec_to_lowercase, str_chars, str_to_lowercase};

verus! {

pub const NFT_MSG_NEWSETELEM: u16 = 12;

pub const NFTA_SET_ELEM_LIST_TABLE: u16 = 1;
pub const NFTA_SET_ELEM_LIST_SET: u16 = 2;
pub const NFTA_SET_ELEM_LIST_ELEMENTS: u16 = 3;

pub const NFTA_SET_ELEM_KEY: u16 = 1;
pub const NFTA_SET_ELEM_TIMEOUT: u16 = 4;

pub const NFTA_DATA_VALUE: u16 = 1;

/// `AF_UNSPEC`.
pub const AF_UNSPEC: u8 = 0;

/// An element to add to a set: its key and its timeout in seconds (0 for
/// none).
#[derive(Clone, Debug)]
pub struct NftElement {
    pub key: Vec<u8>,
    pub timeout_secs: u32,
}

/// An element as (key, timeout).
pub type NftElementView = (Seq<u8>, u32);

impl View for NftElement {
    type V = NftElementView;

    open spec fn view(&self) -> NftElementView {
        (self.key@, self.timeout_secs)
    }
}

/// The views of a sequence of elements.
pub open spec fn elements_view(v: Seq<NftElement>) -> Seq<NftElementView> {
    v.map_values(|e: NftElement| e@)
}

/// Why a request could not be made.
#[derive(Debug, Clone, PartialEq, Eq)]
pub enum NftError {
    /// The table family is not `inet`, `ip`/`ipv4` or `ip6`/`ipv6`.
    UnsupportedFamily(String),
}

/// The nf_tables protocol family named `family` (case-insensitively):
/// `inet` is 1, `ip`/`ipv4` is 2, `ip6`/`ipv6` is 10.
pub open spec fn nf_family_of(family: Seq<char>) -> Option<u8> {
    family_of_lowered(spec_to_lowercase(family))
}

/// The protocol family named by the lowercase name `l`.
pub open spec fn family_of_lowered(l: Seq<char>) -> Option<u8> {
    if l == seq!['i', 'n', 'e', 't'] {
        Some(1)
    } else if l == seq!['i', 'p'] || l == seq!['i', 'p', 'v', '4'] {
        Some(2)
    } else if l == seq!['i', 'p', '6'] || l == seq!['i', 'p', 'v', '6'] {
        Some(10)
    } else {
        None
    }
}

/// Whether `a` holds exactly the characters of `b`.
fn chars_are(a: &Vec<char>, b: &[char]) -> (r: bool)
    ensures
        r == (a@ == b@),
{
    if a.len() != b.len() {
        return false;
    }
    let mut i: usize = 0;
    while i < a.len()
        invariant
            a@.len() == b@.len(),
            i <= a@.len(),
            forall|j: int| 0 <= j < i ==> a@[j] == b@[j],
        decreases a@.len() - i,
    {
        if a[i] != b[i] {
            return false;
        }
        i += 1;
    }
    assert(a@ =~= b@);
    true
}

/// The protocol family of a table family name (see `nf_family_of`).
pub fn parse_nf_family(family: &str) -> (r: Result<u8, NftError>)
    ensures
        match r {
            Ok(f) => nf_family_of(family@) == Some(f),
            Err(NftError::UnsupportedFamily(name)) => nf_family_of(family@) is None && name@ == family@,
        },
{
    let lower = str_to_lowercase(family);
    match family_code(lower.as_str()) {
        Some(f) => Ok(f),
        None => Err(NftError::UnsupportedFamily(family.to_owned())),
    }
}

/// The protocol family named by the lowercase name `lowered` (see
/// `family_of_lowered`).
pub fn family_code(lowered: &str) -> (r: Option<u8>)
    ensures
        r == family_of_lowered(lowered@),
{
    let cs = str_chars(lowered);
    let inet: [char; 4] = ['i', 'n', 'e', 't'];
    let ip: [char; 2] = ['i', 'p'];
    let ipv4: [char; 4] = ['i', 'p', 'v', '4'];
    let ip6: [char; 3] = ['i', 'p', '6'];
    let ipv6: [char; 4] = ['i', 'p', 'v', '6'];
    assert(inet@ =~= seq!['i', 'n', 'e', 't']);
    assert(ip@ =~= seq!['i', 'p']);
    assert(ipv4@ =~= seq!['i', 'p', 'v', '4']);
    assert(ip6@ =~= seq!['i', 'p', '6']);
    assert(ipv6@ =~= seq!['i', 'p', 'v', '6']);
    if chars_are(&cs, &inet) {
        Some(1)
    } else if chars_are(&cs, &ip) || chars_are(&cs, &ipv4) {
        Some(2)
    } else if chars_are(&cs, &ip6) || chars_are(&cs, &ipv6) {
        Some(10)
    } else {
        None
    }
}

/// The netlink message type of nf_tables command `cmd`.
pub open spec fn spec_nft_msg_type(cmd: u16) -> u16 {
    ((NFNL_SUBSYS_NFTABLES as u16) << 8) | cmd
}

/// The netlink message type of nf_tables command `cmd`.
pub fn nft_msg_type(cmd: u16) -> (r: u16)
    ensures
        r == spec_nft_msg_type(cmd),
{
    ((NFNL_SUBSYS_NFTABLES as u16) << 8) | cmd
}

/// What to do with a reply read from the netlink socket.
#[derive(Debug, Clone, Copy, PartialEq, Eq)]
pub enum ReplyAction {
    /// Read the next reply.
    Wait,
    /// The request was acknowledged.
    Finished,
    /// The reply is shorter than a message header.
    Incomplete,
    /// The kernel refused the request with this (negative) error code.
    Failed(i32),
}

/// The meaning of a reply: a message shorter than a header is incomplete;
/// an error message with a non-zero code is a refusal; `NLMSG_DONE` or an
/// acknowledgement (an error message with code 0) ends the exchange; any
/// other message is skipped.
pub open spec fn reply_action(reply: Seq<u8>) -> ReplyAction {
    if reply.len() < 16 {
        ReplyAction::Incomplete
    } else if nlmsg_error_of(reply) is Some && nlmsg_error_of(reply).unwrap() != 0 {
        ReplyAction::Failed(nlmsg_error_of(reply).unwrap())
    } else if nlmsg_type_of(reply) == Some(NLMSG_DONE) || nlmsg_type_of(reply) == Some(NLMSG_ERROR) {
        ReplyAction::Finished
    } else {
        ReplyAction::Wait
    }
}

/// Reads one reply from the kernel (see `reply_action`).
pub fn classify_reply(reply: &[u8]) -> (r: ReplyAction)
    ensures
        r == reply_action(reply@),
{
    if reply.len() < 16 {
        return ReplyAction::Incomplete;
    }
    if let Some(error) = parse_nlmsg_error(reply) {
        if error != 0 {
            return ReplyAction::Failed(error);
        }
    }
    if is_nlmsg_done(reply) {
        return ReplyAction::Finished;
    }
    if get_nlmsg_type(reply) == Some(NLMSG_ERROR) {
        return ReplyAction::Finished;
    }
    ReplyAction::Wait
}


/// An error message from the kernel is a refusal carrying its code when
/// the code is non-zero, and an acknowledgement that ends the exchange
/// when it is zero.
pub proof fn lemma_error_reply_action(len: u32, flags: u16, sq: u32, pid: u32, code: i32, rest: Seq<u8>)
    ensures
        reply_action(nlmsghdr_bytes(len, NLMSG_ERROR, flags, sq, pid) + u32_ne_bytes(code as u32) + rest)
            == if code != 0 {
            ReplyAction::Failed(code)
        } else {
            ReplyAction::Finished
        },
{
    let b = nlmsghdr_bytes(len, NLMSG_ERROR, flags, sq, pid) + u32_ne_bytes(code as u32) + rest;
    crate::netlink::lemma_error_code_read_back(len, flags, sq, pid, code, rest);
    crate::netlink::lemma_header_type_read_back(len, NLMSG_ERROR, flags, sq, pid, u32_ne_bytes(code as u32) + rest);
    assert(nlmsghdr_bytes(len, NLMSG_ERROR, flags, sq, pid) + (u32_ne_bytes(code as u32) + rest) =~= b);
    crate::netlink::lemma_u32_ne_roundtrip(len);
}

/// A `NLMSG_DONE` message ends the exchange.
pub proof fn lemma_done_reply_action(len: u32, flags: u16, sq: u32, pid: u32, rest: Seq<u8>)
    ensures
        reply_action(nlmsghdr_bytes(len, NLMSG_DONE, flags, sq, pid) + rest) == ReplyAction::Finished,
{
    crate::netlink::lemma_header_type_read_back(len, NLMSG_DONE, flags, sq, pid, rest);
    crate::netlink::lemma_u32_ne_roundtrip(len);
}

// ---------------------------------------------------------------------------
// Request layout

/// A nested attribute of type `attr_type` holding `content`.
pub open spec fn nest(attr_type: u16, content: Seq<u8>) -> Seq<u8> {
    attr_header(4int + content.len(), attr_type | NLA_F_NESTED) + content
}

/// A string attribute holding the bytes `s` and a NUL terminator, padded.
pub open spec fn str_attr(attr_type: u16, s: Seq<u8>) -> Seq<u8> {
    pad_to_align(attr_header(4int + s.len() + 1, attr_type) + s + seq![0u8])
}

/// One set element: its key (a data value nested under the key attribute)
/// and, for a non-zero timeout, the timeout in milliseconds.
pub open spec fn element_bytes(e: NftElementView) -> Seq<u8> {
    let key = nest(NFTA_SET_ELEM_KEY, pad_to_align(attr_header(4int + e.0.len(), NFTA_DATA_VALUE) + e.0));
    let timeout = if e.1 > 0 {
        pad_to_align(attr_header(12, NFTA_SET_ELEM_TIMEOUT) + u64_be_bytes((e.1 * 1000) as u64))
    } else {
        seq![]
    };
    nest(0, key + timeout)
}

/// The elements, one after the other.
pub open spec fn elements_bytes(es: Seq<NftElementView>) -> Seq<u8>
    decreases es.len(),
{
    if es.len() == 0 {
        seq![]
    } else {
        elements_bytes(es.drop_last()) + element_bytes(es.last())
    }
}

/// The flags of a `NFT_MSG_NEWSETELEM` request: a request that is
/// acknowledged and creates the elements.
pub open spec fn newsetelem_flags() -> u16 {
    NLM_F_REQUEST | NLM_F_ACK | NLM_F_CREATE
}

/// The body of a `NFT_MSG_NEWSETELEM` message: the nfnetlink header, the
/// table name, the set name and the nested element list.
pub open spec fn newsetelem_body(table: Seq<u8>, set: Seq<u8>, family: u8, es: Seq<NftElementView>) -> Seq<u8> {
    nfgenmsg_bytes(family, 0, 0) + str_attr(NFTA_SET_ELEM_LIST_TABLE, table) + str_attr(
        NFTA_SET_ELEM_LIST_SET,
        set,
    ) + nest(NFTA_SET_ELEM_LIST_ELEMENTS, elements_bytes(es))
}

/// A `NFT_MSG_NEWSETELEM` message (sequence number 1) adding elements `es`
/// to set `set` of table `table`.
pub open spec fn newsetelem_message(table: Seq<u8>, set: Seq<u8>, family: u8, es: Seq<NftElementView>) -> Seq<u8> {
    let body = newsetelem_body(table, set, family, es);
    nlmsghdr_bytes((16 + body.len()) as u32, spec_nft_msg_type(NFT_MSG_NEWSETELEM), newsetelem_flags(), 1, 0)
        + body
}

/// The batch-begin message (sequence number 0).
pub open spec fn batch_begin_message() -> Seq<u8> {
    nlmsghdr_bytes(20, NFNL_MSG_BATCH_BEGIN, NLM_F_REQUEST, 0, 0) + nfgenmsg_bytes(
        AF_UNSPEC,
        0,
        NFNL_SUBSYS_NFTABLES as u16,
    )
}

/// The batch-end message (sequence number 2).
pub open spec fn batch_end_message() -> Seq<u8> {
    nlmsghdr_bytes(20, NFNL_MSG_BATCH_END, NLM_F_REQUEST, 2, 0) + nfgenmsg_bytes(
        AF_UNSPEC,
        0,
        NFNL_SUBSYS_NFTABLES as u16,
    )
}

/// The whole request: a batch holding one `NFT_MSG_NEWSETELEM` message.
pub open spec fn add_elements_request(table: Seq<u8>, set: Seq<u8>, family: u8, es: Seq<NftElementView>) -> Seq<u8> {
    batch_begin_message() + newsetelem_message(table, set, family, es) + batch_end_message()
}

/// An upper bound on the size of the elements' encoding.
pub open spec fn elements_bound(es: Seq<NftElementView>) -> nat
    decreases es.len(),
{
    if es.len() == 0 {
        0
    } else {
        elements_bound(es.drop_last()) + es.last().0.len() + 32
    }
}

/// An upper bound on the size of a request for these names and elements.
pub open spec fn request_bound(table_len: nat, set_len: nat, es: Seq<NftElementView>) -> nat {
    160 + table_len + set_len + elements_bound(es)
}

proof fn lemma_pad_after_aligned(s: Seq<u8>, x: Seq<u8>)
    requires
        s.len() % 4 == 0,
    ensures
        pad_to_align(s + x) == s + pad_to_align(x),
        pad_to_align(x).len() % 4 == 0,
        x.len() <= pad_to_align(x).len() < x.len() + 4,
{
    crate::netlink::lemma_pad_to_align(x);
    assert(pad_to_align(s + x) =~= s + pad_to_align(x));
}

proof fn lemma_close_nested(pre: Seq<u8>, t: u16, content: Seq<u8>)
    ensures
        write_at(
            pre + attr_header(0, t) + content,
            pre.len() as int,
            u16_ne_bytes(((pre + attr_header(0, t) + content).len() - pre.len()) as u16),
        ) == pre + attr_header(4int + content.len(), t) + content,
{
    crate::netlink::lemma_u16_ne_roundtrip(0);
    crate::netlink::lemma_u16_ne_roundtrip(t);
    crate::netlink::lemma_u16_ne_roundtrip((4 + content.len()) as u16);
    assert(write_at(
        pre + attr_header(0, t) + content,
        pre.len() as int,
        u16_ne_bytes(((pre + attr_header(0, t) + content).len() - pre.len()) as u16),
    ) =~= pre + attr_header(4int + content.len(), t) + content);
}

proof fn lemma_elements_len(es: Seq<NftElementView>)
    ensures
        elements_bytes(es).len() % 4 == 0,
        elements_bytes(es).len() <= elements_bound(es),
    decreases es.len(),
{
    if es.len() > 0 {
        lemma_elements_len(es.drop_last());
        lemma_element_len(es.last());
    }
}

proof fn lemma_element_len(e: NftElementView)
    ensures
        element_bytes(e).len() % 4 == 0,
        element_bytes(e).len() <= e.0.len() + 32,
{
    crate::netlink::lemma_u16_ne_roundtrip(0);
    crate::netlink::lemma_pad_to_align(attr_header(4int + e.0.len(), NFTA_DATA_VALUE) + e.0);
    crate::netlink::lemma_pad_to_align(attr_header(12, NFTA_SET_ELEM_TIMEOUT) + u64_be_bytes((e.1 * 1000) as u64));
}

/// The layout of one set element: after the element's and the key's
/// nested headers and the data header comes the key itself, padded to four
/// bytes; then, exactly when the timeout is non-zero (whatever the key),
/// a timeout attribute (length 12) holding the timeout in milliseconds,
/// most significant byte first; nothing else.
pub proof fn lemma_element_layout(e: NftElementView)
    ensures
        element_bytes(e).subrange(12, 12int + e.0.len()) == e.0,
        ({
            let k = 8 + spec_nla_align(4int + e.0.len());
            &&& e.1 > 0 ==> {
                &&& element_bytes(e).len() == k + 12
                &&& element_bytes(e).subrange(k, k + 12) == attr_header(12, NFTA_SET_ELEM_TIMEOUT)
                    + u64_be_bytes((e.1 * 1000) as u64)
            }
            &&& e.1 == 0 ==> element_bytes(e).len() == k
        }),
{
    crate::netlink::lemma_u16_ne_roundtrip(0);
    crate::netlink::lemma_u16_ne_roundtrip(12);
    crate::netlink::lemma_u16_ne_roundtrip(NFTA_SET_ELEM_TIMEOUT);
    crate::netlink::lemma_u16_ne_roundtrip(NFTA_DATA_VALUE);
    let data = attr_header(4int + e.0.len(), NFTA_DATA_VALUE) + e.0;
    crate::netlink::lemma_pad_to_align(data);
    let key = nest(NFTA_SET_ELEM_KEY, pad_to_align(data));
    let t = attr_header(12, NFTA_SET_ELEM_TIMEOUT) + u64_be_bytes((e.1 * 1000) as u64);
    crate::netlink::lemma_pad_to_align(t);
    assert(pad_to_align(t) =~= t);
    let timeout = if e.1 > 0 { t } else { Seq::<u8>::empty() };
    let b = element_bytes(e);
    assert(b == attr_header(4int + (key + timeout).len(), 0 | NLA_F_NESTED) + (key + timeout));
    assert(pad_to_align(data).take(data.len() as int) == data);
    assert(b.subrange(12, 12int + e.0.len()) =~= e.0);
    if e.1 > 0 {
        let k = 8 + spec_nla_align(4int + e.0.len());
        assert(b.subrange(k, k + 12) =~= t);
    }
}

/// Appends one set element (see `element_bytes`).
fn append_element(buf: &mut MsgBuffer, element: &NftElement)
    requires
        old(buf)@.len() % 4 == 0,
        old(buf)@.len() + element.key@.len() + 64 <= usize::MAX,
    ensures
        final(buf)@ == old(buf)@ + element_bytes(element@),
{
    let ghost start = buf@;
    let ghost key_attr = pad_to_align(attr_header(4int + element.key@.len(), NFTA_DATA_VALUE) + element.key@);
    let ghost key_nest = nest(NFTA_SET_ELEM_KEY, key_attr);
    proof {
        crate::netlink::lemma_u16_ne_roundtrip(0);
        crate::netlink::lemma_pad_to_align(attr_header(4int + element.key@.len(), NFTA_DATA_VALUE) + element.key@);
    }
    let elem_offset = buf.start_nested(0);
    let key_offset = buf.start_nested(NFTA_SET_ELEM_KEY);
    let ghost before_key = buf@;
    buf.put_attr_bytes(NFTA_DATA_VALUE, element.key.as_slice());
    proof {
        lemma_pad_after_aligned(
            before_key,
            attr_header(4int + element.key@.len(), NFTA_DATA_VALUE) + element.key@,
        );
        assert(before_key + attr_header(4int + element.key@.len(), NFTA_DATA_VALUE) + element.key@
            =~= before_key + (attr_header(4int + element.key@.len(), NFTA_DATA_VALUE) + element.key@));
        lemma_close_nested(start + attr_header(0, 0 | NLA_F_NESTED), NFTA_SET_ELEM_KEY | NLA_F_NESTED, key_attr);
        assert(buf@ =~= start + attr_header(0, 0 | NLA_F_NESTED) + attr_header(0, NFTA_SET_ELEM_KEY | NLA_F_NESTED) + key_attr);
    }
    buf.end_nested(key_offset);
    let ghost after_key = buf@;
    proof {
        assert(after_key =~= start + attr_header(0, 0 | NLA_F_NESTED) + key_nest);
    }
    let ghost timeout: Seq<u8> = seq![];
    if element.timeout_secs > 0 {
        buf.put_attr_u64_nft(NFTA_SET_ELEM_TIMEOUT, (element.timeout_secs as u64) * 1000);
        proof {
            timeout = pad_to_align(attr_header(12, NFTA_SET_ELEM_TIMEOUT) + u64_be_bytes((element.timeout_secs * 1000) as u64));
            lemma_pad_after_aligned(
                after_key,
                attr_header(12, NFTA_SET_ELEM_TIMEOUT) + u64_be_bytes((element.timeout_secs * 1000) as u64),
            );
            assert(after_key + attr_header(12, NFTA_SET_ELEM_TIMEOUT) + u64_be_bytes((element.timeout_secs * 1000) as u64)
                =~= after_key + (attr_header(12, NFTA_SET_ELEM_TIMEOUT) + u64_be_bytes((element.timeout_secs * 1000) as u64)));
        }
    }
    proof {
        assert(buf@ =~= start + attr_header(0, 0 | NLA_F_NESTED) + (key_nest + timeout));
        lemma_close_nested(start, 0 | NLA_F_NESTED, key_nest + timeout);
    }
    buf.end_nested(elem_offset);
    proof {
        assert(buf@ =~= start + element_bytes(element@));
    }
}


proof fn lemma_bound_prefix(es: Seq<NftElementView>, i: int, j: int)
    requires
        0 <= i <= j <= es.len(),
    ensures
        elements_bound(es.take(i)) <= elements_bound(es.take(j)),
    decreases j - i,
{
    if i < j {
        lemma_bound_prefix(es, i, j - 1);
        assert(es.take(j).drop_last() =~= es.take(j - 1));
    }
}

proof fn lemma_set_msg_len(pre: Seq<u8>, len: u32, t: u16, f: u16, sq: u32, pid: u32, body: Seq<u8>)
    ensures
        write_at(pre + nlmsghdr_bytes(0, t, f, sq, pid) + body, pre.len() as int, u32_ne_bytes(len))
            == pre + nlmsghdr_bytes(len, t, f, sq, pid) + body,
{
    crate::netlink::lemma_u32_ne_roundtrip(0);
    crate::netlink::lemma_u32_ne_roundtrip(len);
    assert(write_at(pre + nlmsghdr_bytes(0, t, f, sq, pid) + body, pre.len() as int, u32_ne_bytes(len))
        =~= pre + nlmsghdr_bytes(len, t, f, sq, pid) + body);
}

proof fn lemma_str_attr(pre: Seq<u8>, t: u16, s: Seq<u8>)
    requires
        pre.len() % 4 == 0,
    ensures
        pad_to_align(pre + attr_header(4int + s.len() + 1, t) + s + seq![0u8]) == pre + str_attr(t, s),
        str_attr(t, s).len() % 4 == 0,
        str_attr(t, s).len() <= s.len() + 8,
{
    crate::netlink::lemma_u16_ne_roundtrip(t);
    crate::netlink::lemma_u16_ne_roundtrip((4 + s.len() + 1) as u16);
    lemma_pad_after_aligned(pre, attr_header(4int + s.len() + 1, t) + s + seq![0u8]);
    assert(pre + attr_header(4int + s.len() + 1, t) + s + seq![0u8]
        =~= pre + (attr_header(4int + s.len() + 1, t) + s + seq![0u8]));
}

/// Appends the nested list of set elements (see `elements_bytes`).
fn append_element_list(buf: &mut MsgBuffer, elements: &[NftElement])
    requires
        old(buf)@.len() % 4 == 0,
        old(buf)@.len() + elements_bound(elements_view(elements@)) + 64 <= usize::MAX,
    ensures
        final(buf)@ == old(buf)@ + nest(NFTA_SET_ELEM_LIST_ELEMENTS, elements_bytes(elements_view(elements@))),
{
    let ghost start = buf@;
    let ghost es = elements_view(elements@);
    let elems_offset = buf.start_nested(NFTA_SET_ELEM_LIST_ELEMENTS);
    let ghost list_start = buf@;
    proof {
        crate::netlink::lemma_u16_ne_roundtrip(0);
        crate::netlink::lemma_u16_ne_roundtrip(NFTA_SET_ELEM_LIST_ELEMENTS | NLA_F_NESTED);
        assert(es.take(0) =~= Seq::<NftElementView>::empty());
    }
    let mut i: usize = 0;
    while i < elements.len()
        invariant
            i <= elements@.len(),
            es == elements_view(elements@),
            es.len() == elements@.len(),
            list_start.len() == start.len() + 4,
            start.len() % 4 == 0,
            start.len() + elements_bound(es) + 64 <= usize::MAX,
            buf@ == list_start + elements_bytes(es.take(i as int)),
        decreases elements@.len() - i,
    {
        proof {
            lemma_elements_len(es.take(i as int));
            lemma_bound_prefix(es, i + 1, es.len() as int);
            assert(es.take(i + 1).drop_last() =~= es.take(i as int));
            assert(es.take(i + 1).last() == es[i as int]);
            assert(es.take(es.len() as int) =~= es);
        }
        append_element(buf, &elements[i]);
        i += 1;
    }
    proof {
        assert(es.take(i as int) =~= es);
        lemma_close_nested(start, NFTA_SET_ELEM_LIST_ELEMENTS | NLA_F_NESTED, elements_bytes(es));
    }
    buf.end_nested(elems_offset);
}

/// Appends a `NFT_MSG_NEWSETELEM` message (see `newsetelem_message`).
fn append_newsetelem_message(
    buf: &mut MsgBuffer,
    table: &str,
    setname: &str,
    nf_family: u8,
    elements: &[NftElement],
)
    requires
        old(buf)@.len() % 4 == 0,
        old(buf)@.len() + 128 + table.spec_bytes().len() + setname.spec_bytes().len() + elements_bound(
            elements_view(elements@),
        ) <= usize::MAX,
    ensures
        final(buf)@ == old(buf)@ + newsetelem_message(
            table.spec_bytes(),
            setname.spec_bytes(),
            nf_family,
            elements_view(elements@),
        ),
{
    let ghost start = buf@;
    let ghost es = elements_view(elements@);
    let ghost tb = table.spec_bytes();
    let ghost sb = setname.spec_bytes();
    let msg_start = buf.len();
    let flags = NLM_F_REQUEST | NLM_F_ACK | NLM_F_CREATE;
    let msg_type = nft_msg_type(NFT_MSG_NEWSETELEM);
    buf.put_nlmsghdr(msg_type, flags, 1);
    buf.put_nfgenmsg(nf_family, 0, 0);
    let ghost hdr = buf@;
    proof {
        crate::netlink::lemma_u32_ne_roundtrip(0);
        crate::netlink::lemma_u32_ne_roundtrip(1);
        crate::netlink::lemma_u16_ne_roundtrip(flags);
        crate::netlink::lemma_u16_ne_roundtrip(msg_type);
        assert(hdr.len() == start.len() + 20);
    }
    buf.put_attr_str(NFTA_SET_ELEM_LIST_TABLE, table);
    proof {
        lemma_str_attr(hdr, NFTA_SET_ELEM_LIST_TABLE, tb);
    }
    let ghost with_table = buf@;
    buf.put_attr_str(NFTA_SET_ELEM_LIST_SET, setname);
    proof {
        lemma_str_attr(with_table, NFTA_SET_ELEM_LIST_SET, sb);
    }
    append_element_list(buf, elements);
    let ghost body = newsetelem_body(tb, sb, nf_family, es);
    proof {
        assert(buf@ =~= start + nlmsghdr_bytes(0, msg_type, flags, 1, 0) + body);
        lemma_set_msg_len(start, (16 + body.len()) as u32, msg_type, flags, 1, 0, body);
    }
    buf.finalize_nlmsg_at(msg_start);
}

/// Whether a request for these names and elements stays within the
/// machine's address space (`request_bound` fits in a `usize`).
pub fn request_fits(table: &str, setname: &str, elements: &[NftElement]) -> (r: bool)
    ensures
        r == (request_bound(table.spec_bytes().len(), setname.spec_bytes().len(), elements_view(elements@))
            <= usize::MAX),
{
    let ghost es = elements_view(elements@);
    let ghost tb = table.spec_bytes();
    let ghost sb = setname.spec_bytes();
    let mut total: usize = 160;
    match total.checked_add(table.as_bytes().len()) {
        Some(t) => total = t,
        None => {
            proof {
                lemma_bound_prefix(es, 0, es.len() as int);
            }
            return false;
        },
    }
    match total.checked_add(setname.as_bytes().len()) {
        Some(t) => total = t,
        None => {
            proof {
                lemma_bound_prefix(es, 0, es.len() as int);
            }
            return false;
        },
    }
    proof {
        assert(es.take(0) =~= Seq::<NftElementView>::empty());
    }
    let mut i: usize = 0;
    while i < elements.len()
        invariant
            i <= elements@.len(),
            es == elements_view(elements@),
            es.len() == elements@.len(),
            tb == table.spec_bytes(),
            sb == setname.spec_bytes(),
            total == 160 + tb.len() + sb.len() + elements_bound(es.take(i as int)),
        decreases elements@.len() - i,
    {
        proof {
            assert(es.take(i + 1).drop_last() =~= es.take(i as int));
            assert(es.take(i + 1).last() == es[i as int]);
            assert(es.take(es.len() as int) =~= es);
            lemma_bound_prefix(es, i + 1, es.len() as int);
        }
        let step = match elements[i].key.len().checked_add(32) {
            Some(v) => v,
            None => return false,
        };
        match total.checked_add(step) {
            Some(t) => total = t,
            None => return false,
        }
        i += 1;
    }
    proof {
        assert(es.take(i as int) =~= es);
    }
    true
}

/// The request that adds `elements` to set `setname` of table `table`
/// (family `family`): a batch holding one `NFT_MSG_NEWSETELEM` message.
/// With no elements there is nothing to send and the family is not looked
/// at.
pub fn build_add_elements_request(family: &str, table: &str, setname: &str, elements: &[NftElement]) -> (r: Result<
    Option<MsgBuffer>,
    NftError,
>)
    requires
        request_bound(table.spec_bytes().len(), setname.spec_bytes().len(), elements_view(elements@))
            <= usize::MAX,
    ensures
        match r {
            Ok(None) => elements@.len() == 0,
            Ok(Some(buf)) => {
                &&& elements@.len() > 0
                &&& nf_family_of(family@) is Some
                &&& buf@ == add_elements_request(
                    table.spec_bytes(),
                    setname.spec_bytes(),
                    nf_family_of(family@).unwrap(),
                    elements_view(elements@),
                )
            },
            Err(NftError::UnsupportedFamily(name)) => {
                &&& elements@.len() > 0
                &&& nf_family_of(family@) is None
                &&& name@ == family@
            },
        },
{
    if elements.len() == 0 {
        return Ok(None);
    }
    let nf_family = match parse_nf_family(family) {
        Ok(f) => f,
        Err(e) => return Err(e),
    };
    let mut buf = MsgBuffer::new(4096);
    buf.put_nlmsghdr(NFNL_MSG_BATCH_BEGIN, NLM_F_REQUEST, 0);
    buf.put_nfgenmsg(AF_UNSPEC, 0, NFNL_SUBSYS_NFTABLES as u16);
    proof {
        crate::netlink::lemma_u32_ne_roundtrip(0);
        crate::netlink::lemma_u16_ne_roundtrip(NFNL_MSG_BATCH_BEGIN);
        crate::netlink::lemma_u16_ne_roundtrip(NLM_F_REQUEST);
        assert(buf@ =~= Seq::<u8>::empty() + nlmsghdr_bytes(0, NFNL_MSG_BATCH_BEGIN, NLM_F_REQUEST, 0, 0)
            + nfgenmsg_bytes(AF_UNSPEC, 0, NFNL_SUBSYS_NFTABLES as u16));
        lemma_set_msg_len(
            Seq::<u8>::empty(),
            20,
            NFNL_MSG_BATCH_BEGIN,
            NLM_F_REQUEST,
            0,
            0,
            nfgenmsg_bytes(AF_UNSPEC, 0, NFNL_SUBSYS_NFTABLES as u16),
        );
    }
    buf.finalize_nlmsg();
    proof {
        assert(buf@ =~= batch_begin_message());
    }
    append_newsetelem_message(&mut buf, table, setname, nf_family, elements);
    let ghost with_msg = buf@;
    let end_start = buf.len();
    buf.put_nlmsghdr(NFNL_MSG_BATCH_END, NLM_F_REQUEST, 2);
    buf.put_nfgenmsg(AF_UNSPEC, 0, NFNL_SUBSYS_NFTABLES as u16);
    proof {
        crate::netlink::lemma_u32_ne_roundtrip(2);
        crate::netlink::lemma_u16_ne_roundtrip(NFNL_MSG_BATCH_END);
        assert(buf@ =~= with_msg + nlmsghdr_bytes(0, NFNL_MSG_BATCH_END, NLM_F_REQUEST, 2, 0)
            + nfgenmsg_bytes(AF_UNSPEC, 0, NFNL_SUBSYS_NFTABLES as u16));
        lemma_set_msg_len(
            with_msg,
            20,
            NFNL_MSG_BATCH_END,
            NLM_F_REQUEST,
            2,
            0,
            nfgenmsg_bytes(AF_UNSPEC, 0, NFNL_SUBSYS_NFTABLES as u16),
        );
    }
    buf.finalize_nlmsg_at(end_start);
    proof {
        assert(buf@ =~= add_elements_request(
            table.spec_bytes(),
            setname.spec_bytes(),
            nf_family,
            elements_view(elements@),
        ));
    }
    Ok(Some(buf))
}

} // verus!
