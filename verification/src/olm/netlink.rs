//! Minimal rtnetlink: the requests that bring a link up, assign an address and add
//! routes, and the acknowledgements that answer them. Sending and receiving them is the
//! caller's.
use crate::bytes::{
    bytes16, bytes32, law_bytes16_denote, law_bytes32_denote, machine_order, native_order, push16,
    push32, push_all, read16, read32, value_in, ByteOrder,
};
use crate::net::{octets_in, IpAddr, IpView};
use vstd::prelude::*;

verus! {

// message types
pub const RTM_NEWLINK: u16 = 16;

pub const RTM_NEWADDR: u16 = 20;

pub const RTM_NEWROUTE: u16 = 24;

pub const NLMSG_ERROR: u16 = 2;

// header flags
/// Request with acknowledgement.
pub const REQUEST: u16 = 0x005;

/// Request with acknowledgement that creates what is missing and replaces what is there.
pub const CREATE_OR_REPLACE: u16 = 0x505;

// attribute types
pub const IFLA_MTU: u16 = 4;

pub const IFA_ADDRESS: u16 = 1;

pub const IFA_LOCAL: u16 = 2;

pub const RTA_DST: u16 = 1;

pub const RTA_OIF: u16 = 4;

// routing constants
pub const RT_TABLE_MAIN: u8 = 254;

pub const RT_SCOPE_UNIVERSE: u8 = 0;

pub const RT_SCOPE_LINK: u8 = 253;

pub const RTPROT_BOOT: u8 = 3;

pub const RTN_UNICAST: u8 = 1;

pub const IFF_UP: u32 = 1;

// address families
pub const AF_UNSPEC: u8 = 0;

pub const AF_INET: u8 = 2;

pub const AF_INET6: u8 = 10;

/// A netlink conversation: the byte order of the machine and the next sequence number.
#[derive(Debug)]
pub struct Netlink {
    order: ByteOrder,
    seq: u32,
}

/// The content of a [`Netlink`].
pub struct NetlinkView {
    pub order: ByteOrder,
    pub seq: u32,
}

impl View for Netlink {
    type V = NetlinkView;

    closed spec fn view(&self) -> NetlinkView {
        NetlinkView { order: self.order, seq: self.seq }
    }
}

/// What is wrong with an acknowledgement, or what it reports.
#[derive(Debug, Clone, Copy, PartialEq, Eq, Structural)]
pub enum AckError {
    /// Shorter than a header and an error code.
    Short,
    /// The request failed with this error of the operating system.
    Os(i32),
}

// ---------------------------------------------------------------------------
// Specifications
// ---------------------------------------------------------------------------
/// `n` zeros.
pub open spec fn zeros(n: nat) -> Seq<u8> {
    Seq::new(n, |i: int| 0u8)
}

/// `s` with zeros up to a multiple of four bytes.
pub open spec fn padded(s: Seq<u8>) -> Seq<u8> {
    s + zeros(((4 - s.len() % 4) % 4) as nat)
}

/// `buf` with an attribute behind it: its length with the header of four bytes, its
/// type, its data, and padding.
pub open spec fn with_attr(o: ByteOrder, buf: Seq<u8>, attr_type: u16, data: Seq<u8>) -> Seq<u8> {
    padded(buf + bytes16(o, (4 + data.len()) as u16) + bytes16(o, attr_type) + data)
}

/// A message: its length with the header of sixteen bytes, its type, flags and sequence
/// number, no port id, and the payload.
pub open spec fn message(o: ByteOrder, seq: u32, msg_type: u16, flags: u16, payload: Seq<u8>) -> Seq<
    u8,
> {
    bytes32(o, (16 + payload.len()) as u32) + bytes16(o, msg_type) + bytes16(o, flags) + bytes32(
        o,
        seq,
    ) + bytes32(o, 0) + payload
}

/// Link information: family and type unspecified, the interface, flags and their mask.
pub open spec fn link_info(o: ByteOrder, ifindex: u32, flags: u32, change: u32) -> Seq<u8> {
    seq![AF_UNSPEC, 0u8] + bytes16(o, 0) + bytes32(o, ifindex) + bytes32(o, flags) + bytes32(
        o,
        change,
    )
}

/// The address family of an address.
pub open spec fn family_of(ip: IpView) -> u8 {
    match ip {
        IpView::V4(_) => AF_INET,
        IpView::V6(_) => AF_INET6,
    }
}

/// The payload that sets the MTU of a link.
pub open spec fn mtu_payload(o: ByteOrder, ifindex: u32, mtu: u32) -> Seq<u8> {
    with_attr(o, link_info(o, ifindex, 0, 0), IFLA_MTU, bytes32(o, mtu))
}

/// The payload that assigns an address to a link.
pub open spec fn addr_payload(o: ByteOrder, ifindex: u32, ip: IpView, prefix: u8) -> Seq<u8> {
    let head = seq![family_of(ip), prefix, 0u8, RT_SCOPE_UNIVERSE] + bytes32(o, ifindex);
    with_attr(o, with_attr(o, head, IFA_LOCAL, octets_in(ip)), IFA_ADDRESS, octets_in(ip))
}

/// The payload that routes a range into a link.
pub open spec fn route_payload(o: ByteOrder, ifindex: u32, dst: IpView, prefix: u8) -> Seq<u8> {
    let head = seq![
        family_of(dst),
        prefix,
        0u8,
        0u8,
        RT_TABLE_MAIN,
        RTPROT_BOOT,
        RT_SCOPE_LINK,
        RTN_UNICAST,
    ] + bytes32(o, 0);
    with_attr(o, with_attr(o, head, RTA_DST, octets_in(dst)), RTA_OIF, bytes32(o, ifindex))
}

/// The signed number with the same 32 bits.
pub open spec fn signed32(n: nat) -> int {
    if n < 0x8000_0000 {
        n as int
    } else {
        n - 0x1_0000_0000
    }
}

/// The negation of a 32-bit number, which leaves the least one as it is.
pub open spec fn negated(n: int) -> int {
    if n == i32::MIN {
        n
    } else {
        -n
    }
}

/// What an acknowledgement says: a message of another type, or an error message with a
/// zero code, is success.
pub open spec fn ack_of(o: ByteOrder, buf: Seq<u8>) -> Result<(), AckError> {
    if buf.len() < 20 {
        Err(AckError::Short)
    } else {
        let code = signed32(value_in(o, buf.subrange(16, 20)));
        if value_in(o, buf.subrange(4, 6)) == NLMSG_ERROR && code != 0 {
            Err(AckError::Os(negated(code) as i32))
        } else {
            Ok(())
        }
    }
}

// ---------------------------------------------------------------------------
// Executable functions
// ---------------------------------------------------------------------------
fn fam_bytes(ip: IpAddr) -> (r: (u8, Vec<u8>))
    ensures
        r.0 == family_of(ip@),
        r.1@ == octets_in(ip@),
        r.1@.len() <= 16,
{
    let family: u8 = if ip.is_ipv4() {
        AF_INET
    } else {
        AF_INET6
    };
    let octets = ip.octets();
    (family, octets)
}

/// Appends an attribute in the given byte order.
pub fn push_attr_in(o: ByteOrder, buf: &mut Vec<u8>, attr_type: u16, data: &[u8])
    requires
        data@.len() + 4 <= u16::MAX,
    ensures
        final(buf)@ == with_attr(o, old(buf)@, attr_type, data@),
{
    let len: usize = 4 + data.len();
    push16(buf, o, len as u16);
    push16(buf, o, attr_type);
    push_all(buf, data);
    let ghost body = buf@;
    let ghost pad = ((4 - body.len() % 4) % 4) as nat;
    let ghost mut added: nat = 0;
    assert(body + zeros(0) =~= body);
    while buf.len() % 4 != 0
        invariant
            pad == ((4 - body.len() % 4) % 4) as nat,
            added <= pad,
            buf@ == body + zeros(added),
            buf@.len() == body.len() + added,
        decreases pad - added,
    {
        buf.push(0);
        proof {
            assert(zeros(added).push(0u8) =~= zeros(added + 1));
            assert(buf@ =~= body + zeros(added + 1));
            added = added + 1;
        }
    }
    assert(added == pad);
}

/// Appends an attribute in the byte order of the machine.
pub fn push_attr(buf: &mut Vec<u8>, attr_type: u16, data: &[u8])
    requires
        data@.len() + 4 <= u16::MAX,
    ensures
        final(buf)@ == with_attr(machine_order(), old(buf)@, attr_type, data@),
{
    push_attr_in(native_order(), buf, attr_type, data)
}

impl Netlink {
    /// A conversation in the byte order of the machine.
    pub fn new() -> (r: Netlink)
        ensures
            r@ == (NetlinkView { order: machine_order(), seq: 1 }),
    {
        Self::with_order(native_order())
    }

    /// A conversation in the given byte order.
    pub fn with_order(order: ByteOrder) -> (r: Netlink)
        ensures
            r@ == (NetlinkView { order, seq: 1 }),
    {
        Netlink { order, seq: 1 }
    }

    /// The request to set the MTU of a link.
    pub fn set_mtu(&mut self, ifindex: u32, mtu: u32) -> (r: Vec<u8>)
        requires
            old(self)@.seq < u32::MAX,
        ensures
            final(self)@ == (NetlinkView { seq: (old(self)@.seq + 1) as u32, ..old(self)@ }),
            r@ == message(
                old(self)@.order,
                old(self)@.seq,
                RTM_NEWLINK,
                REQUEST,
                mtu_payload(old(self)@.order, ifindex, mtu),
            ),
    {
        let mut payload = self.link_info(ifindex, 0, 0);
        let mut data: Vec<u8> = Vec::new();
        push32(&mut data, self.order, mtu);
        assert(data@ =~= bytes32(self@.order, mtu));
        push_attr_in(self.order, &mut payload, IFLA_MTU, data.as_slice());
        self.request(RTM_NEWLINK, REQUEST, payload)
    }

    /// The request to bring a link up.
    pub fn link_up(&mut self, ifindex: u32) -> (r: Vec<u8>)
        requires
            old(self)@.seq < u32::MAX,
        ensures
            final(self)@ == (NetlinkView { seq: (old(self)@.seq + 1) as u32, ..old(self)@ }),
            r@ == message(
                old(self)@.order,
                old(self)@.seq,
                RTM_NEWLINK,
                REQUEST,
                link_info(old(self)@.order, ifindex, IFF_UP, IFF_UP),
            ),
    {
        let payload = self.link_info(ifindex, IFF_UP, IFF_UP);
        self.request(RTM_NEWLINK, REQUEST, payload)
    }

    /// The request to assign an address to a link.
    pub fn add_addr(&mut self, ifindex: u32, ip: IpAddr, prefix: u8) -> (r: Vec<u8>)
        requires
            old(self)@.seq < u32::MAX,
        ensures
            final(self)@ == (NetlinkView { seq: (old(self)@.seq + 1) as u32, ..old(self)@ }),
            r@ == message(
                old(self)@.order,
                old(self)@.seq,
                RTM_NEWADDR,
                CREATE_OR_REPLACE,
                addr_payload(old(self)@.order, ifindex, ip@, prefix),
            ),
    {
        let (family, addr) = fam_bytes(ip);
        // ifaddrmsg: family,prefixlen,flags,scope,index
        let mut payload: Vec<u8> = vec![family, prefix, 0, RT_SCOPE_UNIVERSE];
        assert(payload@ =~= seq![family_of(ip@), prefix, 0u8, RT_SCOPE_UNIVERSE]);
        push32(&mut payload, self.order, ifindex);
        push_attr_in(self.order, &mut payload, IFA_LOCAL, addr.as_slice());
        push_attr_in(self.order, &mut payload, IFA_ADDRESS, addr.as_slice());
        self.request(RTM_NEWADDR, CREATE_OR_REPLACE, payload)
    }

    /// The request to route a range into a link.
    pub fn add_route(&mut self, ifindex: u32, dst: IpAddr, prefix: u8) -> (r: Vec<u8>)
        requires
            old(self)@.seq < u32::MAX,
        ensures
            final(self)@ == (NetlinkView { seq: (old(self)@.seq + 1) as u32, ..old(self)@ }),
            r@ == message(
                old(self)@.order,
                old(self)@.seq,
                RTM_NEWROUTE,
                CREATE_OR_REPLACE,
                route_payload(old(self)@.order, ifindex, dst@, prefix),
            ),
    {
        let (family, addr) = fam_bytes(dst);
        // rtmsg: family,dst_len,src_len,tos,table,protocol,scope,type,flags
        let mut payload: Vec<u8> = vec![
            family,
            prefix,
            0,
            0,
            RT_TABLE_MAIN,
            RTPROT_BOOT,
            RT_SCOPE_LINK,
            RTN_UNICAST,
        ];
        assert(payload@ =~= seq![
            family_of(dst@),
            prefix,
            0u8,
            0u8,
            RT_TABLE_MAIN,
            RTPROT_BOOT,
            RT_SCOPE_LINK,
            RTN_UNICAST,
        ]);
        push32(&mut payload, self.order, 0);
        push_attr_in(self.order, &mut payload, RTA_DST, addr.as_slice());
        let mut oif: Vec<u8> = Vec::new();
        push32(&mut oif, self.order, ifindex);
        assert(oif@ =~= bytes32(self@.order, ifindex));
        push_attr_in(self.order, &mut payload, RTA_OIF, oif.as_slice());
        self.request(RTM_NEWROUTE, CREATE_OR_REPLACE, payload)
    }

    fn link_info(&self, ifindex: u32, flags: u32, change: u32) -> (r: Vec<u8>)
        ensures
            r@ == link_info(self@.order, ifindex, flags, change),
            r@.len() == 16,
    {
        // ifinfomsg: family,pad,type,index,flags,change
        let mut r: Vec<u8> = vec![AF_UNSPEC, 0];
        assert(r@ =~= seq![AF_UNSPEC, 0u8]);
        push16(&mut r, self.order, 0);
        push32(&mut r, self.order, ifindex);
        push32(&mut r, self.order, flags);
        push32(&mut r, self.order, change);
        r
    }

    /// Frames a payload as the next request.
    fn request(&mut self, msg_type: u16, flags: u16, payload: Vec<u8>) -> (r: Vec<u8>)
        requires
            old(self)@.seq < u32::MAX,
            payload@.len() <= 1024,
        ensures
            final(self)@ == (NetlinkView { seq: (old(self)@.seq + 1) as u32, ..old(self)@ }),
            r@ == message(old(self)@.order, old(self)@.seq, msg_type, flags, payload@),
    {
        let seq = self.seq;
        self.seq = self.seq + 1;
        let total: usize = 16 + payload.len();
        let mut msg: Vec<u8> = Vec::new();
        push32(&mut msg, self.order, total as u32);
        push16(&mut msg, self.order, msg_type);
        push16(&mut msg, self.order, flags);
        push32(&mut msg, self.order, seq);
        push32(&mut msg, self.order, 0);  // pid (kernel fills)
        push_all(&mut msg, payload.as_slice());
        assert(msg@ =~= message(self@.order, seq, msg_type, flags, payload@));
        msg
    }

    /// Reads the acknowledgement of a request.
    pub fn read_ack(&self, buf: &[u8]) -> (r: Result<(), AckError>)
        ensures
            r == ack_of(self@.order, buf@),
    {
        if buf.len() < 20 {
            return Err(AckError::Short);
        }
        // nlmsghdr (16) then NLMSG_ERROR body: i32 error, then original header.
        let msg_type = read16(buf, self.order, 4);
        if msg_type == NLMSG_ERROR {
            let bits: u32 = read32(buf, self.order, 16);
            if bits == 0 {
                return Ok(());  // ACK
            }
            let code: i64 = if bits < 0x8000_0000 {
                bits as i64
            } else {
                bits as i64 - 0x1_0000_0000
            };
            let negated: i64 = if code == -0x8000_0000 {
                code
            } else {
                -code
            };
            return Err(AckError::Os(negated as i32));
        }
        Ok(())
    }
}

// ---------------------------------------------------------------------------
// Laws
// ---------------------------------------------------------------------------
/// Behind an attribute the buffer is aligned to four bytes, and what was in it stays.
pub proof fn law_attributes_are_aligned(o: ByteOrder, buf: Seq<u8>, attr_type: u16, data: Seq<u8>)
    ensures
        with_attr(o, buf, attr_type, data).len() % 4 == 0,
        buf.is_prefix_of(with_attr(o, buf, attr_type, data)),
{
    assert(with_attr(o, buf, attr_type, data).subrange(0, buf.len() as int) =~= buf);
}

/// A message declares its own length and carries its sequence number.
pub proof fn law_message_declares_itself(
    o: ByteOrder,
    seq: u32,
    msg_type: u16,
    flags: u16,
    payload: Seq<u8>,
)
    requires
        payload.len() + 16 <= u32::MAX,
    ensures
        value_in(o, message(o, seq, msg_type, flags, payload).subrange(0, 4)) == message(
            o,
            seq,
            msg_type,
            flags,
            payload,
        ).len(),
        value_in(o, message(o, seq, msg_type, flags, payload).subrange(8, 12)) == seq,
{
    let m = message(o, seq, msg_type, flags, payload);
    let total = (16 + payload.len()) as u32;
    assert(m.subrange(0, 4) =~= bytes32(o, total));
    assert(m.subrange(8, 12) =~= bytes32(o, seq));
    law_bytes32_denote(o, total);
    law_bytes32_denote(o, seq);
}

/// The error that the kernel reports as a negative code is the one that is returned,
/// and a zero code is success.
pub proof fn law_reported_error_is_returned(o: ByteOrder, head: Seq<u8>, code: u32, rest: Seq<u8>)
    requires
        head.len() == 16,
        head.subrange(4, 6) == bytes16(o, NLMSG_ERROR),
        code <= i32::MAX,
    ensures
        ack_of(o, head + bytes32(o, ((0x1_0000_0000 - code) % 0x1_0000_0000) as u32) + rest) == (
        if code == 0 {
            Ok::<(), AckError>(())
        } else {
            Err::<(), AckError>(AckError::Os(code as i32))
        }),
{
    let bits = ((0x1_0000_0000 - code) % 0x1_0000_0000) as u32;
    let buf = head + bytes32(o, bits) + rest;
    assert(buf.subrange(4, 6) =~= head.subrange(4, 6));
    assert(buf.subrange(16, 20) =~= bytes32(o, bits));
    law_bytes16_denote(o, NLMSG_ERROR);
    law_bytes32_denote(o, bits);
}

/// The 16-bit number at `at`, as a machine of this order reads it.
pub open spec fn num16(o: ByteOrder, b: Seq<u8>, at: int) -> int {
    match o {
        ByteOrder::Little => b[at] + 256 * b[at + 1],
        ByteOrder::Big => 256 * b[at] + b[at + 1],
    }
}

/// The 32-bit number at `at`, as a machine of this order reads it.
pub open spec fn num32(o: ByteOrder, b: Seq<u8>, at: int) -> int {
    match o {
        ByteOrder::Little => b[at] + 0x100 * b[at + 1] + 0x1_0000 * b[at + 2] + 0x100_0000 * b[at
            + 3],
        ByteOrder::Big => 0x100_0000 * b[at] + 0x1_0000 * b[at + 1] + 0x100 * b[at + 2] + b[at + 3],
    }
}

/// The data of the attribute of a type, as the kernel finds it: from `at` on it goes from
/// attribute to attribute by their lengths, each rounded up to four bytes.
pub open spec fn attribute(o: ByteOrder, b: Seq<u8>, at: int, attr_type: int) -> Option<Seq<u8>>
    decreases b.len() + 4 - at,
{
    if at < 0 || at + 4 > b.len() || num16(o, b, at) < 4 || at + num16(o, b, at) > b.len() {
        None
    } else if num16(o, b, at + 2) == attr_type {
        Some(b.subrange(at + 4, at + num16(o, b, at)))
    } else {
        attribute(o, b, at + (num16(o, b, at) + 3) / 4 * 4, attr_type)
    }
}

/// The header of a request, as the kernel reads it: its length, type, flags and sequence
/// number, and no port id.
pub open spec fn is_request(o: ByteOrder, b: Seq<u8>, msg_type: int, flags: int, seq: int) -> bool {
    &&& b.len() >= 16
    &&& num32(o, b, 0) == b.len()
    &&& num16(o, b, 4) == msg_type
    &&& num16(o, b, 6) == flags
    &&& num32(o, b, 8) == seq
    &&& num32(o, b, 12) == 0
}

proof fn lemma_num16(o: ByteOrder, x: u16)
    ensures
        bytes16(o, x).len() == 2,
        num16(o, bytes16(o, x), 0) == x,
{
}

proof fn lemma_num32(o: ByteOrder, x: u32)
    ensures
        bytes32(o, x).len() == 4,
        num32(o, bytes32(o, x), 0) == x,
{
}

proof fn lemma_is_request(o: ByteOrder, seq: u32, msg_type: u16, flags: u16, payload: Seq<u8>)
    requires
        payload.len() <= 1024,
    ensures
        is_request(
            o,
            message(o, seq, msg_type, flags, payload),
            msg_type as int,
            flags as int,
            seq as int,
        ),
        message(o, seq, msg_type, flags, payload).len() == 16 + payload.len(),
        message(o, seq, msg_type, flags, payload).skip(16) == payload,
        forall|i: int|
            0 <= i < payload.len() ==> message(o, seq, msg_type, flags, payload)[16 + i]
                == #[trigger] payload[i],
{
    let m = message(o, seq, msg_type, flags, payload);
    lemma_num32(o, (16 + payload.len()) as u32);
    lemma_num16(o, msg_type);
    lemma_num16(o, flags);
    lemma_num32(o, seq);
    lemma_num32(o, 0);
    assert(m.skip(16) =~= payload);
}

proof fn lemma_num16_in(o: ByteOrder, b: Seq<u8>, at: int, x: u16)
    requires
        b[at] == bytes16(o, x)[0],
        b[at + 1] == bytes16(o, x)[1],
    ensures
        num16(o, b, at) == x,
{
    lemma_num16(o, x);
}

/// The bytes of an attribute behind `buf`.
proof fn lemma_attr_bytes(o: ByteOrder, buf: Seq<u8>, attr_type: u16, data: Seq<u8>)
    requires
        buf.len() % 4 == 0,
        data.len() <= 16,
    ensures
        ({
            let w = with_attr(o, buf, attr_type, data);
            let h = buf.len() as int;
            &&& w.len() == h + (4 + data.len() + 3) / 4 * 4
            &&& w.take(h) == buf
            &&& w[h] == bytes16(o, (4 + data.len()) as u16)[0]
            &&& w[h + 1] == bytes16(o, (4 + data.len()) as u16)[1]
            &&& w[h + 2] == bytes16(o, attr_type)[0]
            &&& w[h + 3] == bytes16(o, attr_type)[1]
            &&& w.subrange(h + 4, h + 4 + data.len()) == data
        }),
{
    let w = with_attr(o, buf, attr_type, data);
    let h = buf.len() as int;
    lemma_num16(o, (4 + data.len()) as u16);
    lemma_num16(o, attr_type);
    assert(w.take(h) =~= buf);
    assert(w.subrange(h + 4, h + 4 + data.len()) =~= data);
}

/// One step of finding an attribute.
proof fn lemma_attribute_step(o: ByteOrder, b: Seq<u8>, at: int, len: int, t: int, other: int)
    requires
        0 <= at,
        4 <= len,
        at + len <= b.len(),
        num16(o, b, at) == len,
        num16(o, b, at + 2) == t,
        other != t,
    ensures
        attribute(o, b, at, t) == Some(b.subrange(at + 4, at + len)),
        attribute(o, b, at, other) == attribute(o, b, at + (len + 3) / 4 * 4, other),
{
}

/// An attribute behind `buf` is found from there on, and what stands before stays.
proof fn lemma_attribute_behind(
    o: ByteOrder,
    front: Seq<u8>,
    buf: Seq<u8>,
    attr_type: u16,
    data: Seq<u8>,
)
    requires
        buf.len() % 4 == 0,
        data.len() <= 16,
    ensures
        attribute(
            o,
            front + with_attr(o, buf, attr_type, data),
            (front.len() + buf.len()) as int,
            attr_type as int,
        ) == Some(data),
        with_attr(o, buf, attr_type, data).len() == buf.len() + (4 + data.len() + 3) / 4 * 4,
        forall|i: int|
            0 <= i < buf.len() ==> with_attr(o, buf, attr_type, data)[i] == #[trigger] buf[i],
{
    let w = with_attr(o, buf, attr_type, data);
    let h = buf.len() as int;
    let f = front.len() as int;
    let b = front + w;
    lemma_attr_bytes(o, buf, attr_type, data);
    assert forall|i: int| 0 <= i < h implies w[i] == #[trigger] buf[i] by {
        assert(w.take(h)[i] == w[i]);
    }
    assert(b[f + h] == w[h] && b[f + h + 1] == w[h + 1] && b[f + h + 2] == w[h + 2] && b[f + h + 3]
        == w[h + 3]);
    lemma_num16_in(o, b, f + h, (4 + data.len()) as u16);
    lemma_num16_in(o, b, f + h + 2, attr_type);
    lemma_attribute_step(o, b, f + h, (4 + data.len()) as int, attr_type as int, attr_type + 1);
    assert(b.subrange(f + h + 4, f + h + 4 + data.len()) =~= w.subrange(h + 4, h + 4 + data.len()));
}

/// A message whose payload ends in two attributes holds both.
proof fn lemma_two_attributes(
    o: ByteOrder,
    front: Seq<u8>,
    head: Seq<u8>,
    t1: u16,
    d1: Seq<u8>,
    t2: u16,
    d2: Seq<u8>,
)
    requires
        head.len() % 4 == 0,
        d1.len() <= 16,
        d2.len() <= 16,
        t1 != t2,
    ensures
        ({
            let b = front + with_attr(o, with_attr(o, head, t1, d1), t2, d2);
            let at = (front.len() + head.len()) as int;
            &&& attribute(o, b, at, t1 as int) == Some(d1)
            &&& attribute(o, b, at, t2 as int) == Some(d2)
        }),
{
    let first = with_attr(o, head, t1, d1);
    let w = with_attr(o, first, t2, d2);
    let b = front + w;
    let h = head.len() as int;
    let f = front.len() as int;
    lemma_attr_bytes(o, head, t1, d1);
    assert(first.len() % 4 == 0);
    lemma_attribute_behind(o, front, first, t2, d2);
    assert forall|i: int| 0 <= i < first.len() implies b[f + i] == #[trigger] first[i] by {
        assert(w[i] == first[i]);
    }
    assert(b[f + h] == first[h] && b[f + h + 1] == first[h + 1]);
    assert(b[f + h + 2] == first[h + 2] && b[f + h + 3] == first[h + 3]);
    lemma_num16_in(o, b, f + h, (4 + d1.len()) as u16);
    lemma_num16_in(o, b, f + h + 2, t1);
    lemma_attribute_step(o, b, f + h, (4 + d1.len()) as int, t1 as int, t2 as int);
    let found = b.subrange(f + h + 4, f + h + (4 + d1.len()));
    assert forall|i: int| 0 <= i < d1.len() implies #[trigger] found[i] == d1[i] by {
        assert(first.subrange(h + 4, h + 4 + d1.len())[i] == first[h + 4 + i]);
        assert(b[f + (h + 4 + i)] == first[h + 4 + i]);
    }
    assert(found =~= d1);
}

/// The content of an address has the length of its version.
pub open spec fn is_address(ip: IpView) -> bool {
    match ip {
        IpView::V4(o) => o.len() == 4,
        IpView::V6(o) => o.len() == 16,
    }
}

/// The request to add a route, read as the kernel does: an RTM_NEWROUTE that creates or
/// replaces, for the family of the destination with the given prefix length, a unicast
/// route of link scope in the main table, with the destination and the interface as its
/// attributes.
#[verifier::rlimit(60)]
pub proof fn law_route_request_is_read_back(
    o: ByteOrder,
    seq: u32,
    ifindex: u32,
    dst: IpView,
    prefix: u8,
)
    requires
        is_address(dst),
    ensures
        ({
            let m = message(
                o,
                seq,
                RTM_NEWROUTE,
                CREATE_OR_REPLACE,
                route_payload(o, ifindex, dst, prefix),
            );
            &&& is_request(o, m, 24, 0x505, seq as int)
            &&& m[16] == if dst is V4 {
                2u8
            } else {
                10u8
            }
            &&& m[17] == prefix
            &&& m[18] == 0 && m[19] == 0
            &&& m[20] == 254 && m[21] == 3 && m[22] == 253 && m[23] == 1
            &&& num32(o, m, 24) == 0
            &&& attribute(o, m, 28, 1) == Some(
                match dst {
                    IpView::V4(a) => a,
                    IpView::V6(a) => a,
                },
            )
            &&& attribute(o, m, 28, 4) matches Some(d) && d.len() == 4 && num32(o, d, 0) == ifindex
        }),
{
    let head = seq![
        family_of(dst),
        prefix,
        0u8,
        0u8,
        RT_TABLE_MAIN,
        RTPROT_BOOT,
        RT_SCOPE_LINK,
        RTN_UNICAST,
    ] + bytes32(o, 0);
    let payload = route_payload(o, ifindex, dst, prefix);
    let m = message(o, seq, RTM_NEWROUTE, CREATE_OR_REPLACE, payload);
    let front = m.take(16);
    lemma_num32(o, ifindex);
    lemma_num32(o, 0);
    let first = with_attr(o, head, RTA_DST, octets_in(dst));
    lemma_attribute_behind(o, seq![], head, RTA_DST, octets_in(dst));
    lemma_attribute_behind(o, seq![], first, RTA_OIF, bytes32(o, ifindex));
    assert forall|i: int| 0 <= i < 12 implies payload[i] == #[trigger] head[i] by {
        assert(first[i] == head[i]);
        assert(payload[i] == first[i]);
    }
    lemma_is_request(o, seq, RTM_NEWROUTE, CREATE_OR_REPLACE, payload);
    assert(front + payload =~= m);
    lemma_two_attributes(o, front, head, RTA_DST, octets_in(dst), RTA_OIF, bytes32(o, ifindex));
    assert(forall|i: int| 0 <= i < 12 ==> m[16 + i] == #[trigger] head[i]) by {
        assert forall|i: int| 0 <= i < 12 implies m[16 + i] == #[trigger] head[i] by {
            assert(m[16 + i] == payload[i]);
        }
    }
    assert(m[16] == head[0] && m[17] == head[1] && m[18] == head[2] && m[19] == head[3] && m[20]
        == head[4] && m[21] == head[5] && m[22] == head[6] && m[23] == head[7]);
    assert(m[24] == head[8] && m[25] == head[9] && m[26] == head[10] && m[27] == head[11]);
}

/// The request to assign an address, read as the kernel does: an RTM_NEWADDR that creates
/// or replaces, for the family of the address with the given prefix length and of
/// universe scope, on the given interface, with the address as local and as peer address.
#[verifier::rlimit(60)]
pub proof fn law_address_request_is_read_back(
    o: ByteOrder,
    seq: u32,
    ifindex: u32,
    ip: IpView,
    prefix: u8,
)
    requires
        is_address(ip),
    ensures
        ({
            let m = message(
                o,
                seq,
                RTM_NEWADDR,
                CREATE_OR_REPLACE,
                addr_payload(o, ifindex, ip, prefix),
            );
            let octets = match ip {
                IpView::V4(a) => a,
                IpView::V6(a) => a,
            };
            &&& is_request(o, m, 20, 0x505, seq as int)
            &&& m[16] == if ip is V4 {
                2u8
            } else {
                10u8
            }
            &&& m[17] == prefix
            &&& m[18] == 0 && m[19] == 0
            &&& num32(o, m, 20) == ifindex
            &&& attribute(o, m, 24, 2) == Some(octets)
            &&& attribute(o, m, 24, 1) == Some(octets)
        }),
{
    let head = seq![family_of(ip), prefix, 0u8, RT_SCOPE_UNIVERSE] + bytes32(o, ifindex);
    let payload = addr_payload(o, ifindex, ip, prefix);
    let m = message(o, seq, RTM_NEWADDR, CREATE_OR_REPLACE, payload);
    let front = m.take(16);
    lemma_num32(o, ifindex);
    let first = with_attr(o, head, IFA_LOCAL, octets_in(ip));
    lemma_attribute_behind(o, seq![], head, IFA_LOCAL, octets_in(ip));
    lemma_attribute_behind(o, seq![], first, IFA_ADDRESS, octets_in(ip));
    assert forall|i: int| 0 <= i < 8 implies payload[i] == #[trigger] head[i] by {
        assert(first[i] == head[i]);
        assert(payload[i] == first[i]);
    }
    lemma_is_request(o, seq, RTM_NEWADDR, CREATE_OR_REPLACE, payload);
    assert(front + payload =~= m);
    lemma_two_attributes(o, front, head, IFA_LOCAL, octets_in(ip), IFA_ADDRESS, octets_in(ip));
    assert(forall|i: int| 0 <= i < 8 ==> m[16 + i] == #[trigger] head[i]) by {
        assert forall|i: int| 0 <= i < 8 implies m[16 + i] == #[trigger] head[i] by {
            assert(m[16 + i] == payload[i]);
        }
    }
    assert(m[16] == head[0] && m[17] == head[1] && m[18] == head[2] && m[19] == head[3]);
    assert(m[20] == head[4] && m[21] == head[5] && m[22] == head[6] && m[23] == head[7]);
}

/// The requests on a link, read as the kernel does: each is an RTM_NEWLINK for the given
/// interface; one sets its MTU and no flag, the other sets the flag that it is up and
/// changes no other.
#[verifier::rlimit(60)]
pub proof fn law_link_requests_are_read_back(o: ByteOrder, seq: u32, ifindex: u32, mtu: u32)
    ensures
        ({
            let m = message(o, seq, RTM_NEWLINK, REQUEST, mtu_payload(o, ifindex, mtu));
            &&& is_request(o, m, 16, 5, seq as int)
            &&& m[16] == 0 && m[17] == 0 && m[18] == 0 && m[19] == 0
            &&& num32(o, m, 20) == ifindex
            &&& num32(o, m, 24) == 0
            &&& num32(o, m, 28) == 0
            &&& attribute(o, m, 32, 4) matches Some(d) && d.len() == 4 && num32(o, d, 0) == mtu
        }),
        ({
            let m = message(o, seq, RTM_NEWLINK, REQUEST, link_info(o, ifindex, IFF_UP, IFF_UP));
            &&& is_request(o, m, 16, 5, seq as int)
            &&& m.len() == 32
            &&& m[16] == 0 && m[17] == 0 && m[18] == 0 && m[19] == 0
            &&& num32(o, m, 20) == ifindex
            &&& num32(o, m, 24) == 1
            &&& num32(o, m, 28) == 1
        }),
{
    lemma_num16(o, 0);
    lemma_num32(o, ifindex);
    lemma_num32(o, 0);
    lemma_num32(o, 1);
    lemma_num32(o, mtu);
    let up = link_info(o, ifindex, IFF_UP, IFF_UP);
    lemma_is_request(o, seq, RTM_NEWLINK, REQUEST, up);
    let m = message(o, seq, RTM_NEWLINK, REQUEST, up);
    assert(forall|i: int| 0 <= i < 16 ==> m[16 + i] == #[trigger] up[i]);
    assert(m[16] == up[0] && m[17] == up[1] && m[18] == up[2] && m[19] == up[3]);
    assert(m[20] == up[4] && m[21] == up[5] && m[22] == up[6] && m[23] == up[7]);
    assert(m[24] == up[8] && m[25] == up[9] && m[26] == up[10] && m[27] == up[11]);
    assert(m[28] == up[12] && m[29] == up[13] && m[30] == up[14] && m[31] == up[15]);

    let head = link_info(o, ifindex, 0, 0);
    let payload = mtu_payload(o, ifindex, mtu);
    let n = message(o, seq, RTM_NEWLINK, REQUEST, payload);
    lemma_attribute_behind(o, seq![], head, IFLA_MTU, bytes32(o, mtu));
    lemma_is_request(o, seq, RTM_NEWLINK, REQUEST, payload);
    let front = n.take(16);
    assert(front + payload =~= n);
    lemma_attribute_behind(o, front, head, IFLA_MTU, bytes32(o, mtu));
    assert forall|i: int| 0 <= i < 16 implies n[16 + i] == #[trigger] head[i] by {
        assert(payload[i] == head[i]);
        assert(n[16 + i] == payload[i]);
    }
    assert(n[16] == head[0] && n[17] == head[1] && n[18] == head[2] && n[19] == head[3]);
    assert(n[20] == head[4] && n[21] == head[5] && n[22] == head[6] && n[23]
        == head[7]);
    assert(n[24] == head[8] && n[25] == head[9] && n[26] == head[10] && n[27] == head[11]);
    assert(n[28] == head[12] && n[29] == head[13] && n[30] == head[14] && n[31] == head[15]);
}

/// An acknowledgement is an error message, whose code stands behind the header of sixteen
/// bytes: zero is success, and any other the error of its negation, which the least code
/// has none of. A message of another type is success, and one shorter than twenty bytes is
/// too short.
pub proof fn law_acknowledgement_is_read(o: ByteOrder, b: Seq<u8>)
    ensures
        b.len() < 20 ==> ack_of(o, b) == Err::<(), AckError>(AckError::Short),
        b.len() >= 20 && num16(o, b, 4) != 2 ==> ack_of(o, b) is Ok,
        b.len() >= 20 && num16(o, b, 4) == 2 && num32(o, b, 16) == 0 ==> ack_of(o, b) is Ok,
        b.len() >= 20 && num16(o, b, 4) == 2 && num32(o, b, 16) > 0x8000_0000 ==> ack_of(o, b)
            == Err::<(), AckError>(AckError::Os((0x1_0000_0000 - num32(o, b, 16)) as i32)),
        b.len() >= 20 && num16(o, b, 4) == 2 && 0 < num32(o, b, 16) < 0x8000_0000 ==> ack_of(o, b)
            == Err::<(), AckError>(AckError::Os((-num32(o, b, 16)) as i32)),
        b.len() >= 20 && num16(o, b, 4) == 2 && num32(o, b, 16) == 0x8000_0000 ==> ack_of(o, b)
            == Err::<(), AckError>(AckError::Os(i32::MIN)),
{
    if b.len() >= 20 {
        crate::bytes::law_byte_orders(0, 0, 0, b.subrange(4, 6));
        crate::bytes::law_byte_orders(0, 0, 0, b.subrange(16, 20));
    }
}

} // verus!
