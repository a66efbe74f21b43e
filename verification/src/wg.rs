//! WireGuard: keys, and the pump that turns IP packets into datagrams and back.
use crate::crypto::{
    b64_decode, b64_decoded, b64_encode, b64_encoded, is_b64_char, x25519_public, x25519_public_key,
    x25519_random_secret,
};
use crate::text::{join2, trim, trimmed, trimmed_end, trimmed_start};
use vstd::prelude::*;
use vstd::string::*;

verus! {

/// A secret X25519 key.
#[derive(Clone, Copy)]
pub struct StaticSecret {
    pub bytes: [u8; 32],
}

/// A public X25519 key.
#[derive(Debug, Clone, Copy, PartialEq, Eq)]
pub struct PublicKey {
    pub bytes: [u8; 32],
}

/// A key pair, the public key in base64.
pub struct Keys {
    pub secret: StaticSecret,
    pub public_b64: String,
}

/// What reading a public key from base64 gives: the key, or what is wrong.
pub open spec fn public_key_of(s: Seq<char>) -> Result<Seq<u8>, Seq<char>> {
    match b64_decoded(trimmed(s)) {
        Ok(raw) => if raw.len() == 32 {
            Ok(raw)
        } else {
            Err("pubkey not 32 bytes"@)
        },
        Err(e) => Err("bad pubkey b64: "@ + e),
    }
}

/// The content of a key or of an error.
pub open spec fn key_result(r: Result<PublicKey, String>) -> Result<Seq<u8>, Seq<char>> {
    match r {
        Ok(k) => Ok(k.bytes@),
        Err(e) => Err(e@),
    }
}

proof fn lemma_b64_is_trimmed(s: Seq<char>)
    requires
        forall|i: int| 0 <= i < s.len() ==> is_b64_char(#[trigger] s[i]),
    ensures
        trimmed(s) == s,
{
    if s.len() > 0 {
        assert(is_b64_char(s[0]));
        assert(is_b64_char(s.last()));
    }
}

impl StaticSecret {
    /// A fresh random key. It comes from the operating system; any 32 bytes may come out.
    pub fn random() -> (r: StaticSecret) {
        StaticSecret { bytes: x25519_random_secret() }
    }

    /// The public key that belongs to this one.
    pub fn public(&self) -> (r: PublicKey)
        ensures
            r.bytes@ == x25519_public(self.bytes@),
    {
        PublicKey { bytes: x25519_public_key(&self.bytes) }
    }
}

impl PublicKey {
    pub fn as_bytes(&self) -> (r: &[u8; 32])
        ensures
            *r == self.bytes,
    {
        &self.bytes
    }

    /// The key in base64.
    pub fn to_b64(&self) -> (r: String)
        ensures
            r@ == b64_encoded(self.bytes@),
            public_key_of(r@) == Ok::<Seq<u8>, Seq<char>>(self.bytes@),
    {
        let r = b64_encode(self.bytes.as_slice());
        proof {
            lemma_b64_is_trimmed(r@);
        }
        r
    }
}

/// A fresh key pair. The public key reads back from its text.
pub fn generate_keys() -> (r: Keys)
    ensures
        r.public_b64@ == b64_encoded(x25519_public(r.secret.bytes@)),
        public_key_of(r.public_b64@) == Ok::<Seq<u8>, Seq<char>>(x25519_public(r.secret.bytes@)),
{
    let secret = StaticSecret::random();
    let public = secret.public();
    Keys { public_b64: public.to_b64(), secret }
}

/// Decode a base64 WireGuard public key.
pub fn public_from_b64(s: &str) -> (r: Result<PublicKey, String>)
    ensures
        key_result(r) == public_key_of(s@),
{
    match b64_decode(trim(s).as_str()) {
        Ok(raw) => {
            if raw.len() != 32 {
                return Err("pubkey not 32 bytes".to_owned());
            }
            let mut bytes: [u8; 32] = [0;32];
            for i in 0..32usize
                invariant
                    raw@.len() == 32,
                    forall|j: int| 0 <= j < i ==> bytes@[j] == raw@[j],
            {
                bytes[i] = raw[i];
            }
            assert(bytes@ =~= raw@);
            Ok(PublicKey { bytes })
        },
        Err(e) => Err(join2("bad pubkey b64: ", e.as_str())),
    }
}

// ---------------------------------------------------------------------------
// The tunnel
// ---------------------------------------------------------------------------
/// `boringtun::noise::Tunn`, whose content is [`tunn_view`].
#[verifier::external_type_specification]
#[verifier::external_body]
pub struct ExTunn(boringtun::noise::Tunn);

/// What a tunnel was made with, and the part of its state that says how it answers.
pub struct TunnFacts {
    pub secret: Seq<u8>,
    pub peer: Seq<u8>,
    pub keepalive: u16,
    pub index: u32,
    /// The packets that wait for a session, oldest first.
    pub queue: Seq<Seq<u8>>,
    /// A handshake has been started and is not finished.
    pub handshaking: bool,
    /// Packets can be encrypted now.
    pub has_session: bool,
}

/// What is known of a tunnel: what it was made with, its `packet_queue`, whether a
/// handshake of its own or of the peer is in progress, and whether its current session
/// is there.
pub uninterp spec fn tunn_facts(t: boringtun::noise::Tunn) -> TunnFacts;

/// What is known of a tunnel, with the tunnel itself: the keys and counters of its
/// sessions and of a handshake under way.
pub struct TunnView {
    pub secret: Seq<u8>,
    pub peer: Seq<u8>,
    pub keepalive: u16,
    pub index: u32,
    pub queue: Seq<Seq<u8>>,
    pub handshaking: bool,
    pub has_session: bool,
    pub state: boringtun::noise::Tunn,
}

/// The content of a tunnel.
pub open spec fn tunn_view(t: boringtun::noise::Tunn) -> TunnView {
    let f = tunn_facts(t);
    TunnView {
        secret: f.secret,
        peer: f.peer,
        keepalive: f.keepalive,
        index: f.index,
        queue: f.queue,
        handshaking: f.handshaking,
        has_session: f.has_session,
        state: t,
    }
}

/// The data message that `boringtun::noise::Tunn::encapsulate` makes of a packet with the
/// current session of the tunnel.
pub uninterp spec fn tunn_seals(t: boringtun::noise::Tunn, packet: Seq<u8>) -> Seq<u8>;

/// What `boringtun::noise::Tunn::decapsulate` makes of a data message.
pub uninterp spec fn tunn_opens(t: boringtun::noise::Tunn, d: Seq<u8>) -> OutcomeView;

/// `boringtun::noise::Tunn::encapsulate` may answer a packet like this and leave the
/// tunnel in that state; an initiation that it starts rests on chance and time.
pub uninterp spec fn tunn_sends(
    t: boringtun::noise::Tunn,
    packet: Seq<u8>,
    r: OutcomeView,
    after: boringtun::noise::Tunn,
) -> bool;

/// `boringtun::noise::Tunn::decapsulate` may answer a datagram like this and leave the
/// tunnel in that state; the answer to a handshake message rests on chance.
pub uninterp spec fn tunn_takes(
    t: boringtun::noise::Tunn,
    d: Seq<u8>,
    r: OutcomeView,
    after: boringtun::noise::Tunn,
) -> bool;

/// `boringtun::noise::Tunn::format_handshake_initiation` may answer like this and leave
/// the tunnel in that state, as chance and time have it.
pub uninterp spec fn tunn_starts(
    t: boringtun::noise::Tunn,
    r: OutcomeView,
    after: boringtun::noise::Tunn,
) -> bool;

/// `boringtun::noise::Tunn::update_timers` may answer like this and leave the tunnel in
/// that state, as chance and time have it.
pub uninterp spec fn tunn_times(
    t: boringtun::noise::Tunn,
    r: OutcomeView,
    after: boringtun::noise::Tunn,
) -> bool;

/// What a call into a tunnel gave.
pub enum Outcome {
    Done,
    Failed,
    Network(Vec<u8>),
    PacketV4(Vec<u8>),
    PacketV6(Vec<u8>),
}

/// The content of an [`Outcome`].
pub enum OutcomeView {
    Done,
    Failed,
    Network(Seq<u8>),
    Packet(Seq<u8>),
}

impl View for Outcome {
    type V = OutcomeView;

    open spec fn view(&self) -> OutcomeView {
        match self {
            Outcome::Done => OutcomeView::Done,
            Outcome::Failed => OutcomeView::Failed,
            Outcome::Network(b) => OutcomeView::Network(b@),
            Outcome::PacketV4(p) => OutcomeView::Packet(p@),
            Outcome::PacketV6(p) => OutcomeView::Packet(p@),
        }
    }
}

/// The 32-bit number at `at`, least significant byte first.
pub open spec fn le32(d: Seq<u8>, at: int) -> nat {
    (d[at] + 0x100 * d[at + 1] + 0x1_0000 * d[at + 2] + 0x100_0000 * d[at + 3]) as nat
}

/// A handshake initiation of the peer with this index, whose low 24 bits stand above
/// the session slot in the sender index.
pub open spec fn is_initiation(b: Seq<u8>, index: u32) -> bool {
    &&& b.len() == 148
    &&& le32(b, 0) == 1
    &&& le32(b, 4) / 256 == index % 0x100_0000
}

/// The most bytes that one ChaCha20-Poly1305 message takes.
pub const MAX_SEALED: u64 = 274_877_906_880;

/// A packet of this length fits into one message, and memory can hold that.
pub open spec fn sealable(len: int) -> bool {
    len <= MAX_SEALED && len + 32 <= isize::MAX
}

/// A data message that carries a packet of `len` bytes.
pub open spec fn is_data(b: Seq<u8>, len: nat) -> bool {
    &&& b.len() == len + 32
    &&& le32(b, 0) == 4
}

/// A datagram whose size and type are those of a WireGuard message.
pub open spec fn is_message(d: Seq<u8>) -> bool {
    &&& d.len() >= 4
    &&& {
        ||| le32(d, 0) == 1 && d.len() == 148
        ||| le32(d, 0) == 2 && d.len() == 92
        ||| le32(d, 0) == 3 && d.len() == 64
        ||| le32(d, 0) == 4 && d.len() >= 32
    }
}

/// A datagram whose size and type are those of a data message.
pub open spec fn is_data_message(d: Seq<u8>) -> bool {
    d.len() >= 32 && le32(d, 0) == 4
}

/// The counter of a data message.
pub open spec fn counter_of(d: Seq<u8>) -> nat {
    le32(d, 8) + 0x1_0000_0000 * le32(d, 12)
}

/// From this counter on the window of received messages has no room.
pub const COUNTER_LIMIT: u64 = 0xffff_ffff_ffff_fc00;

/// A data message that a tunnel with room for packets of `room` bytes cannot take: it
/// is too long, or its counter leaves the window no room.
pub open spec fn is_unfit(d: Seq<u8>, room: nat) -> bool {
    is_data_message(d) && (d.len() > room + 48 || counter_of(d) >= COUNTER_LIMIT)
}

/// What becomes of a tunnel that is to start a handshake: nothing while one is under
/// way.
pub open spec fn started(t: TunnView, r: OutcomeView, after: TunnView) -> bool {
    if t.handshaking {
        r is Done && after == t
    } else {
        &&& r is Network
        &&& is_initiation(r->Network_0, t.index)
        &&& after == (TunnView { handshaking: true, state: after.state, ..t })
    }
}

/// What a handshake initiation does, unless one is under way.
pub open spec fn initiated(t: TunnView, r: OutcomeView, after: TunnView) -> bool {
    &&& started(t, r, after)
    &&& tunn_starts(t.state, r, after.state)
}

/// `t` with one more packet in its queue, which holds no more than 256.
pub open spec fn queued(t: TunnView, packet: Seq<u8>) -> TunnView {
    if t.queue.len() < 256 {
        TunnView { queue: t.queue.push(packet), ..t }
    } else {
        t
    }
}

/// What becomes of a packet: with a session it is encrypted, without one it waits and a
/// handshake starts.
pub open spec fn sent(t: TunnView, packet: Seq<u8>, r: OutcomeView, after: TunnView) -> bool {
    if t.has_session {
        &&& r == OutcomeView::Network(tunn_seals(t.state, packet))
        &&& is_data(tunn_seals(t.state, packet), packet.len())
        &&& after == (TunnView { state: after.state, ..t })
    } else if t.handshaking {
        r is Done && after == (TunnView { state: after.state, ..queued(t, packet) })
    } else {
        started(queued(t, packet), r, after)
    }
}

/// What sending a packet does.
pub open spec fn encapsulated(t: TunnView, packet: Seq<u8>, r: OutcomeView, after: TunnView) -> bool {
    &&& sent(t, packet, r, after)
    &&& tunn_sends(t.state, packet, r, after.state)
}

/// What an empty datagram does: the oldest packet in the queue is sent.
pub open spec fn drained(t: TunnView, r: OutcomeView, after: TunnView) -> bool {
    &&& if t.queue.len() == 0 {
        r is Done && after == t
    } else {
        sent(TunnView { queue: t.queue.drop_first(), ..t }, t.queue[0], r, after)
    }
    &&& tunn_takes(t.state, Seq::empty(), r, after.state)
}

/// What a datagram from the network does. The tunnel stays the one that it is and keeps
/// its queue. What a data message gives depends on it and the tunnel alone; a packet
/// comes from one that is larger by the overhead at least. What is no message is
/// refused and changes nothing.
pub open spec fn decapsulated(t: TunnView, d: Seq<u8>, r: OutcomeView, after: TunnView) -> bool {
    &&& after == (TunnView {
        handshaking: after.handshaking,
        has_session: after.has_session,
        state: after.state,
        ..t
    })
    &&& tunn_takes(t.state, d, r, after.state)
    &&& is_data_message(d) ==> r == tunn_opens(t.state, d)
    &&& r is Packet ==> r->Packet_0.len() + 32 <= d.len() && is_data_message(d)
    &&& !is_message(d) ==> r is Failed && after == t
}

/// What holds whatever the time is: the tunnel stays the one that it is; its queue
/// stays, is emptied, or gets an empty packet; what is sent is an initiation or an
/// empty data message.
pub open spec fn timed(t: TunnView, r: OutcomeView, after: TunnView) -> bool {
    &&& after == (TunnView {
        queue: after.queue,
        handshaking: after.handshaking,
        has_session: after.has_session,
        state: after.state,
        ..t
    })
    &&& tunn_times(t.state, r, after.state)
    &&& after.queue == t.queue || after.queue == Seq::<Seq<u8>>::empty() || (t.queue.len() < 256
        && after.queue == t.queue.push(Seq::empty()))
    &&& !(r is Packet)
    &&& r is Network ==> is_initiation(r->Network_0, t.index) || is_data(r->Network_0, 0)
}

/// `boringtun::noise::Tunn::new` without a preshared key and with a rate limiter of
/// its own: the tunnel of the two keys, with an empty queue and nothing under way.
#[verifier::external_body]
fn tunn_new(secret: &[u8; 32], peer: &[u8; 32], keepalive: u16, index: u32) -> (r:
    boringtun::noise::Tunn)
    ensures
        tunn_facts(r) == (TunnFacts {
            secret: secret@,
            peer: peer@,
            keepalive,
            index,
            queue: Seq::empty(),
            handshaking: false,
            has_session: false,
        }),
{
    let secret = boringtun::x25519::StaticSecret::from(*secret);
    let peer = boringtun::x25519::PublicKey::from(*peer);
    boringtun::noise::Tunn::new(secret, peer, None, Some(keepalive), index, None)
}

/// `boringtun::noise::Tunn::encapsulate` into a buffer of `size` bytes, which must
/// take the packet with its overhead and an initiation. The packet must fit into one
/// message. With a session the data message is [`tunn_seals`]; without one the packet
/// waits and a handshake starts, unless one is under way. Answer and new state are such
/// as [`tunn_sends`] allows.
#[verifier::external_body]
fn tunn_encapsulate(tun: &mut boringtun::noise::Tunn, packet: &[u8], size: usize) -> (r: Outcome)
    requires
        packet@.len() + 32 <= size,
        packet@.len() <= MAX_SEALED,
        148 <= size <= isize::MAX,
    ensures
        encapsulated(tunn_view(*old(tun)), packet@, r@, tunn_view(*final(tun))),
        tunn_sends(*old(tun), packet@, r@, *final(tun)),
        tunn_facts(*old(tun)).has_session ==> r@ == OutcomeView::Network(
            tunn_seals(*old(tun), packet@),
        ),
{
    let mut dst = vec![0u8; size];
    match tun.encapsulate(packet, &mut dst) {
        boringtun::noise::TunnResult::Done => Outcome::Done,
        boringtun::noise::TunnResult::Err(_) => Outcome::Failed,
        boringtun::noise::TunnResult::WriteToNetwork(b) => Outcome::Network(b.to_vec()),
        boringtun::noise::TunnResult::WriteToTunnelV4(p, _) => Outcome::PacketV4(p.to_vec()),
        boringtun::noise::TunnResult::WriteToTunnelV6(p, _) => Outcome::PacketV6(p.to_vec()),
    }
}

/// `boringtun::noise::Tunn::decapsulate` without a source address, into a buffer of
/// `size` bytes. It must take the plaintext of a data message with its tag, and the
/// counter must leave the window of received messages room; where the datagram is
/// empty, which sends the oldest packet in the queue, it must take every packet there
/// with its overhead, and each must fit into one message. What a data message gives is
/// [`tunn_opens`]; what else a message gives is such as [`tunn_takes`] allows.
#[verifier::external_body]
fn tunn_decapsulate(tun: &mut boringtun::noise::Tunn, datagram: &[u8], size: usize) -> (r: Outcome)
    requires
        is_data_message(datagram@) ==> datagram@.len() <= size + 16 && counter_of(datagram@)
            < COUNTER_LIMIT,
        148 <= size <= isize::MAX,
        datagram@.len() == 0 ==> (forall|i: int|
            0 <= i < tunn_view(*old(tun)).queue.len() ==> {
                &&& (#[trigger] tunn_view(*old(tun)).queue[i]).len() + 32 <= size
                &&& tunn_view(*old(tun)).queue[i].len() <= MAX_SEALED
            }),
    ensures
        if datagram@.len() == 0 {
            drained(tunn_view(*old(tun)), r@, tunn_view(*final(tun)))
        } else {
            decapsulated(tunn_view(*old(tun)), datagram@, r@, tunn_view(*final(tun)))
        },
        tunn_takes(*old(tun), datagram@, r@, *final(tun)),
        is_data_message(datagram@) ==> r@ == tunn_opens(*old(tun), datagram@),
{
    let mut dst = vec![0u8; size];
    match tun.decapsulate(None, datagram, &mut dst) {
        boringtun::noise::TunnResult::Done => Outcome::Done,
        boringtun::noise::TunnResult::Err(_) => Outcome::Failed,
        boringtun::noise::TunnResult::WriteToNetwork(b) => Outcome::Network(b.to_vec()),
        boringtun::noise::TunnResult::WriteToTunnelV4(p, _) => Outcome::PacketV4(p.to_vec()),
        boringtun::noise::TunnResult::WriteToTunnelV6(p, _) => Outcome::PacketV6(p.to_vec()),
    }
}

/// `boringtun::noise::Tunn::format_handshake_initiation` without forcing a resend,
/// into a buffer of `size` bytes. While a handshake is under way nothing happens;
/// otherwise the initiation is such as [`tunn_starts`] allows.
#[verifier::external_body]
fn tunn_initiate(tun: &mut boringtun::noise::Tunn, size: usize) -> (r: Outcome)
    requires
        148 <= size <= isize::MAX,
    ensures
        initiated(tunn_view(*old(tun)), r@, tunn_view(*final(tun))),
        tunn_starts(*old(tun), r@, *final(tun)),
{
    let mut dst = vec![0u8; size];
    match tun.format_handshake_initiation(&mut dst, false) {
        boringtun::noise::TunnResult::Done => Outcome::Done,
        boringtun::noise::TunnResult::Err(_) => Outcome::Failed,
        boringtun::noise::TunnResult::WriteToNetwork(b) => Outcome::Network(b.to_vec()),
        boringtun::noise::TunnResult::WriteToTunnelV4(p, _) => Outcome::PacketV4(p.to_vec()),
        boringtun::noise::TunnResult::WriteToTunnelV6(p, _) => Outcome::PacketV6(p.to_vec()),
    }
}

/// `boringtun::noise::Tunn::update_timers` into a buffer of `size` bytes. What it does
/// depends on the time; it is such as [`tunn_times`] allows.
#[verifier::external_body]
fn tunn_update_timers(tun: &mut boringtun::noise::Tunn, size: usize) -> (r: Outcome)
    requires
        148 <= size <= isize::MAX,
    ensures
        timed(tunn_view(*old(tun)), r@, tunn_view(*final(tun))),
        tunn_times(*old(tun), r@, *final(tun)),
{
    let mut dst = vec![0u8; size];
    match tun.update_timers(&mut dst) {
        boringtun::noise::TunnResult::Done => Outcome::Done,
        boringtun::noise::TunnResult::Err(_) => Outcome::Failed,
        boringtun::noise::TunnResult::WriteToNetwork(b) => Outcome::Network(b.to_vec()),
        boringtun::noise::TunnResult::WriteToTunnelV4(p, _) => Outcome::PacketV4(p.to_vec()),
        boringtun::noise::TunnResult::WriteToTunnelV6(p, _) => Outcome::PacketV6(p.to_vec()),
    }
}

// ---------------------------------------------------------------------------
// The pump
// ---------------------------------------------------------------------------
/// Whether a data message cannot be taken with buffers of `size` bytes.
fn unfit(d: &[u8], size: usize) -> (r: bool)
    requires
        32 <= size <= isize::MAX,
    ensures
        r == is_unfit(d@, (size - 32) as nat),
{
    if d.len() < 32 || d[0] != 4 || d[1] != 0 || d[2] != 0 || d[3] != 0 {
        return false;
    }
    d.len() > size + 16 || (d[15] == 255 && d[14] == 255 && d[13] == 255 && d[12] == 255 && d[11]
        == 255 && d[10] == 255 && d[9] >= 252)
}

/// One WireGuard session with a peer: packets in, datagrams out, and back.
pub struct Pump {
    tun: boringtun::noise::Tunn,
    mtu: usize,
}

/// The content of a [`Pump`].
pub struct PumpView {
    pub tun: TunnView,
    pub mtu: usize,
}

impl View for Pump {
    type V = PumpView;

    closed spec fn view(&self) -> PumpView {
        PumpView { tun: tunn_view(self.tun), mtu: self.mtu }
    }
}

/// Output of feeding an inbound UDP datagram into the pump.
pub enum Inbound {
    /// A decrypted IP packet to hand to the netstack.
    Packet(Vec<u8>),
    /// Bytes that must be written back to the network (handshake/cookie).
    Network(Vec<u8>),
    Nothing,
}

/// The content of an [`Inbound`].
pub enum InboundView {
    Packet(Seq<u8>),
    Network(Seq<u8>),
    Nothing,
}

impl View for Inbound {
    type V = InboundView;

    open spec fn view(&self) -> InboundView {
        match self {
            Inbound::Packet(p) => InboundView::Packet(p@),
            Inbound::Network(b) => InboundView::Network(b@),
            Inbound::Nothing => InboundView::Nothing,
        }
    }
}

/// The outcome that an inbound result stands for; a failure is passed over.
pub open spec fn inbound_of(r: OutcomeView) -> InboundView {
    match r {
        OutcomeView::Packet(p) => InboundView::Packet(p),
        OutcomeView::Network(b) => InboundView::Network(b),
        _ => InboundView::Nothing,
    }
}

/// The datagram that an outcome asks to send.
pub open spec fn network_of(r: OutcomeView) -> Option<Seq<u8>> {
    match r {
        OutcomeView::Network(b) => Some(b),
        _ => None,
    }
}

/// The content of an optional datagram.
pub open spec fn opt_bytes(r: Option<Vec<u8>>) -> Option<Seq<u8>> {
    match r {
        Some(b) => Some(b@),
        None => None,
    }
}

impl PumpView {
    /// The largest packet that the pump takes.
    pub open spec fn room(self) -> nat {
        if self.mtu > 1500 {
            self.mtu as nat
        } else {
            1500
        }
    }

    /// The buffers can be allocated, and every packet that waits fits in them.
    pub open spec fn wf(self) -> bool {
        &&& sealable(self.mtu as int)
        &&& self.tun.queue.len() <= 256
        &&& forall|i: int|
            0 <= i < self.tun.queue.len() ==> (#[trigger] self.tun.queue[i]).len() <= self.room()
    }

    /// `self` with its tunnel in another state.
    pub open spec fn with(self, tun: TunnView) -> PumpView {
        PumpView { tun, ..self }
    }
}

impl Pump {
    pub fn new(secret: StaticSecret, peer_public: PublicKey, mtu: usize) -> (r: Self)
        requires
            sealable(mtu as int),
        ensures
            r@.wf(),
            r@ == fresh_pump(secret.bytes@, peer_public.bytes@, mtu, 0, r@.tun.state),
    {
        Self::with_index(secret, peer_public, mtu, 0)
    }

    /// Build a pump with an explicit WireGuard peer index. The 32-bit local index is
    /// composed as `index << 8 | session_slot`, so each peer in a multi-peer router
    /// must get a distinct `index`; inbound datagrams are then demultiplexed back to
    /// the owning peer via `peer_index_of`.
    pub fn with_index(
        secret: StaticSecret,
        peer_public: PublicKey,
        mtu: usize,
        index: u32,
    ) -> (r: Self)
        requires
            sealable(mtu as int),
        ensures
            r@.wf(),
            r@ == fresh_pump(secret.bytes@, peer_public.bytes@, mtu, index, r@.tun.state),
    {
        let tun = tunn_new(&secret.bytes, &peer_public.bytes, 5, index);
        Pump { tun, mtu }
    }

    fn scratch(&self) -> (r: usize)
        requires
            self@.wf(),
        ensures
            r == self@.room() + 32,
            148 <= r <= isize::MAX,
    {
        if self.mtu > 1500 {
            self.mtu + 32
        } else {
            1532
        }
    }

    /// Encrypt an outbound IP packet. Returns the datagram to send over UDP.
    pub fn encapsulate(&mut self, packet: &[u8]) -> (r: Option<Vec<u8>>)
        requires
            old(self)@.wf(),
            packet@.len() <= old(self)@.room(),
        ensures
            final(self)@.wf(),
            final(self)@ == old(self)@.with(final(self)@.tun),
            exists|o: OutcomeView|
                #[trigger] encapsulated(old(self)@.tun, packet@, o, final(self)@.tun)
                    && opt_bytes(r) == network_of(o),
    {
        let size = self.scratch();
        let o = tunn_encapsulate(&mut self.tun, packet, size);
        assert(encapsulated(old(self)@.tun, packet@, o@, self@.tun));
        match o {
            Outcome::Network(b) => Some(b),
            _ => None,
        }
    }

    /// Decrypt one inbound datagram. After this returns `Network`, the caller
    /// must loop `drain()` until it returns `Nothing` to flush queued packets. A data
    /// message that the tunnel cannot take is dropped.
    pub fn decapsulate(&mut self, datagram: &[u8]) -> (r: Inbound)
        requires
            old(self)@.wf(),
        ensures
            final(self)@.wf(),
            final(self)@ == old(self)@.with(final(self)@.tun),
            exists|o: OutcomeView|
                #[trigger] fed(old(self)@, datagram@, o, final(self)@.tun) && r@ == inbound_of(o),
    {
        let size = self.scratch();
        if unfit(datagram, size) {
            assert(fed(old(self)@, datagram@, OutcomeView::Failed, self@.tun));
            return Inbound::Nothing;
        }
        let o = tunn_decapsulate(&mut self.tun, datagram, size);
        assert(fed(old(self)@, datagram@, o@, self@.tun));
        match o {
            Outcome::PacketV4(p) => Inbound::Packet(p),
            Outcome::PacketV6(p) => Inbound::Packet(p),
            Outcome::Network(b) => Inbound::Network(b),
            _ => Inbound::Nothing,
        }
    }

    /// Drain queued packets after a `WriteToNetwork` (feeds empty input).
    pub fn drain(&mut self) -> (r: Inbound)
        requires
            old(self)@.wf(),
        ensures
            final(self)@.wf(),
            final(self)@ == old(self)@.with(final(self)@.tun),
            exists|o: OutcomeView|
                #[trigger] drained(old(self)@.tun, o, final(self)@.tun) && r@ == inbound_of(o),
    {
        let none: [u8; 0] = [];
        self.decapsulate(none.as_slice())
    }

    /// Force a handshake initiation. A passive side with no outbound data to trigger
    /// one must reach out first to holepunch and bring the session up; otherwise the
    /// exit node never sees traffic and the site stays offline.
    pub fn initiate_handshake(&mut self) -> (r: Option<Vec<u8>>)
        requires
            old(self)@.wf(),
        ensures
            final(self)@.wf(),
            final(self)@ == old(self)@.with(final(self)@.tun),
            exists|o: OutcomeView|
                #[trigger] initiated(old(self)@.tun, o, final(self)@.tun) && opt_bytes(r)
                    == network_of(o),
    {
        let size = self.scratch();
        let o = tunn_initiate(&mut self.tun, size);
        assert(initiated(old(self)@.tun, o@, self@.tun));
        match o {
            Outcome::Network(b) => Some(b),
            _ => None,
        }
    }

    /// Advance the timers; returns a datagram that they call for.
    pub fn update_timers(&mut self) -> (r: Option<Vec<u8>>)
        requires
            old(self)@.wf(),
        ensures
            final(self)@.wf(),
            final(self)@ == old(self)@.with(final(self)@.tun),
            exists|o: OutcomeView|
                #[trigger] timed(old(self)@.tun, o, final(self)@.tun) && opt_bytes(r)
                    == network_of(o),
    {
        let size = self.scratch();
        let o = tunn_update_timers(&mut self.tun, size);
        assert(timed(old(self)@.tun, o@, self@.tun));
        match o {
            Outcome::Network(b) => Some(b),
            _ => None,
        }
    }
}

/// What a datagram does to a pump: an empty one sends the oldest packet in the queue, a
/// data message that the tunnel cannot take is passed over, and the tunnel takes any
/// other.
pub open spec fn fed(p: PumpView, d: Seq<u8>, o: OutcomeView, after: TunnView) -> bool {
    if d.len() == 0 {
        drained(p.tun, o, after)
    } else if is_unfit(d, p.room()) {
        o is Failed && after == p.tun
    } else {
        decapsulated(p.tun, d, o, after)
    }
}

/// The states that a tunnel goes through while it is drained: `states` before each call,
/// `last` after the one that leaves nothing to do. With a session each call encrypts
/// the packet whose turn it is.
pub open spec fn drains(
    t: TunnView,
    outs: Seq<Seq<u8>>,
    states: Seq<boringtun::noise::Tunn>,
    last: boringtun::noise::Tunn,
) -> bool {
    &&& states.len() == outs.len() + 1
    &&& states[0] == t.state
    &&& forall|i: int|
        0 <= i < outs.len() ==> {
            &&& tunn_takes(
                states[i],
                Seq::empty(),
                OutcomeView::Network(#[trigger] outs[i]),
                states[i + 1],
            )
            &&& t.has_session ==> outs[i] == tunn_seals(states[i], t.queue[i])
        }
    &&& tunn_takes(states.last(), Seq::empty(), OutcomeView::Done, last)
}

/// What draining a tunnel until nothing is left to do gives. With a session every
/// packet in the queue is sent, oldest first. Without one the queue stays, its oldest
/// packet moved to the end by each attempt, and a handshake starts unless one is
/// under way.
pub open spec fn drained_out(t: TunnView, outs: Seq<Seq<u8>>, after: TunnView) -> bool {
    &&& if t.queue.len() == 0 {
        outs.len() == 0 && after == t
    } else if t.has_session {
        &&& outs.len() == t.queue.len()
        &&& forall|i: int| 0 <= i < outs.len() ==> is_data(#[trigger] outs[i], t.queue[i].len())
        &&& after == (TunnView { queue: Seq::empty(), state: after.state, ..t })
    } else if t.handshaking {
        outs.len() == 0 && after == (TunnView {
            queue: rotated(t.queue),
            state: after.state,
            ..t
        })
    } else {
        &&& outs.len() == 1
        &&& is_initiation(outs[0], t.index)
        &&& after == (TunnView {
            queue: rotated(rotated(t.queue)),
            handshaking: true,
            state: after.state,
            ..t
        })
    }
    &&& exists|states: Seq<boringtun::noise::Tunn>| #[trigger] drains(t, outs, states, after.state)
}

/// A queue whose oldest packet has gone to its end.
pub open spec fn rotated(q: Seq<Seq<u8>>) -> Seq<Seq<u8>> {
    q.drop_first().push(q[0])
}

/// The results that ask for something.
pub open spec fn something(r: InboundView) -> Seq<InboundView> {
    if r is Nothing {
        seq![]
    } else {
        seq![r]
    }
}

/// What an inbound datagram and the draining after it give: the result of the
/// datagram itself, then the datagrams of the queue.
pub open spec fn received(
    p: PumpView,
    d: Seq<u8>,
    o: OutcomeView,
    mid: TunnView,
    outs: Seq<Seq<u8>>,
    after: TunnView,
) -> bool {
    &&& fed(p, d, o, mid)
    &&& drained_out(mid, outs, after)
}

/// The results of a received datagram in order.
pub open spec fn received_results(o: OutcomeView, outs: Seq<Seq<u8>>) -> Seq<InboundView> {
    something(inbound_of(o)) + outs.map_values(|b: Seq<u8>| InboundView::Network(b))
}

/// The contents of some results.
pub open spec fn inbound_views(r: Seq<Inbound>) -> Seq<InboundView> {
    r.map_values(|x: Inbound| x@)
}

impl Pump {
    /// Drains until nothing is left to do, adding each datagram to send to `out`.
    fn drain_out(&mut self, out: &mut Vec<Inbound>) -> (outs: Ghost<Seq<Seq<u8>>>)
        requires
            old(self)@.wf(),
        ensures
            final(self)@.wf(),
            final(self)@ == old(self)@.with(final(self)@.tun),
            drained_out(old(self)@.tun, outs@, final(self)@.tun),
            inbound_views(final(out)@) == inbound_views(old(out)@) + outs@.map_values(
                |b: Seq<u8>| InboundView::Network(b),
            ),
    {
        let ghost t = self@.tun;
        let ghost mut outs: Seq<Seq<u8>> = seq![];
        let ghost mut states: Seq<boringtun::noise::Tunn> = seq![t.state];
        let ghost before = inbound_views(out@);
        assert(t.queue.skip(0) =~= t.queue);
        loop
            invariant_except_break
                if t.has_session {
                    &&& outs.len() <= t.queue.len()
                    &&& self@.tun == (TunnView {
                        queue: t.queue.skip(outs.len() as int),
                        state: self@.tun.state,
                        ..t
                    })
                    &&& forall|i: int|
                        0 <= i < outs.len() ==> is_data(#[trigger] outs[i], t.queue[i].len())
                } else {
                    ||| outs.len() == 0 && self@.tun == t
                    ||| !t.handshaking && t.queue.len() > 0 && outs.len() == 1 && is_initiation(
                        outs[0],
                        t.index,
                    ) && self@.tun == (TunnView {
                        queue: rotated(t.queue),
                        handshaking: true,
                        state: self@.tun.state,
                        ..t
                    })
                },
                states.len() == outs.len() + 1,
                states[0] == t.state,
                states.last() == self@.tun.state,
                forall|i: int|
                    0 <= i < outs.len() ==> {
                        &&& tunn_takes(
                            states[i],
                            Seq::empty(),
                            OutcomeView::Network(#[trigger] outs[i]),
                            states[i + 1],
                        )
                        &&& t.has_session ==> outs[i] == tunn_seals(states[i], t.queue[i])
                    },
            invariant
                self@.wf(),
                self@ == old(self)@.with(self@.tun),
                t == old(self)@.tun,
                t.queue.len() <= 256,
                before == inbound_views(old(out)@),
                inbound_views(out@) == before + outs.map_values(
                    |b: Seq<u8>| InboundView::Network(b),
                ),
            ensures
                self@.wf(),
                self@ == old(self)@.with(self@.tun),
                drained_out(t, outs, self@.tun),
                inbound_views(out@) == before + outs.map_values(
                    |b: Seq<u8>| InboundView::Network(b),
                ),
            decreases
                    (if t.has_session {
                        t.queue.len() - outs.len()
                    } else {
                        1 - outs.len()
                    }),
        {
            let ghost was = self@.tun;
            let r = self.drain();
            let ghost o = choose|o: OutcomeView|
                #[trigger] drained(was, o, self@.tun) && r@ == inbound_of(o);
            match r {
                Inbound::Nothing => {
                    proof {
                        assert(drained_out(t, outs, self@.tun)) by {
                            assert(o is Done);
                            assert(drains(t, outs, states, self@.tun.state));
                            if t.has_session {
                                assert(was.queue.len() == 0);
                                assert(self@.tun.queue =~= Seq::empty());
                            } else if t.queue.len() > 0 {
                                assert(was.queue.len() > 0);
                                assert(self@.tun.queue =~= rotated(was.queue));
                            }
                        }
                    }
                    break;
                },
                more => {
                    proof {
                        assert(o is Network);
                        let b = o->Network_0;
                        if t.has_session {
                            assert(was.queue[0] == t.queue[outs.len() as int]);
                            assert(was.queue.drop_first() =~= t.queue.skip(outs.len() as int + 1));
                        } else {
                            assert(self@.tun.queue =~= rotated(was.queue));
                        }
                        let next = outs.push(b);
                        assert(next.map_values(|b: Seq<u8>| InboundView::Network(b))
                            =~= outs.map_values(|b: Seq<u8>| InboundView::Network(b)).push(
                            InboundView::Network(b),
                        ));
                        assert(inbound_views(out@.push(more)) =~= inbound_views(out@).push(more@));
                        outs = next;
                        states = states.push(self@.tun.state);
                    }
                    out.push(more);
                },
            }
        }
        Ghost(outs)
    }

    /// Takes an inbound datagram in and flushes the queue after it. Returns the
    /// packets and datagrams that came out, in order.
    pub fn receive(&mut self, datagram: &[u8]) -> (r: Vec<Inbound>)
        requires
            old(self)@.wf(),
        ensures
            final(self)@.wf(),
            final(self)@ == old(self)@.with(final(self)@.tun),
            exists|o: OutcomeView, mid: TunnView, outs: Seq<Seq<u8>>|
                #[trigger] received(
                    old(self)@,
                    datagram@,
                    o,
                    mid,
                    outs,
                    final(self)@.tun,
                ) && inbound_views(r@) == received_results(o, outs),
    {
        let mut out: Vec<Inbound> = Vec::new();
        let first = self.decapsulate(datagram);
        let ghost mid = self@.tun;
        let ghost o = choose|o: OutcomeView|
            #[trigger] fed(old(self)@, datagram@, o, mid) && first@ == inbound_of(o);
        match first {
            Inbound::Nothing => {},
            more => {
                out.push(more);
            },
        }
        assert(inbound_views(out@) =~= something(inbound_of(o)));
        let Ghost(outs) = self.drain_out(&mut out);
        assert(received(old(self)@, datagram@, o, mid, outs, self@.tun));
        out
    }
}

/// A pump that has just been made.
pub open spec fn fresh_pump(
    secret: Seq<u8>,
    peer: Seq<u8>,
    mtu: usize,
    index: u32,
    state: boringtun::noise::Tunn,
) -> PumpView {
    PumpView {
        tun: TunnView {
            secret,
            peer,
            keepalive: 5,
            index,
            queue: Seq::empty(),
            handshaking: false,
            has_session: false,
            state,
        },
        mtu,
    }
}

/// A pump that has just been made and has started its handshake.
pub open spec fn opened_pump(
    secret: Seq<u8>,
    peer: Seq<u8>,
    mtu: usize,
    index: u32,
    state: boringtun::noise::Tunn,
) -> PumpView {
    let fresh = fresh_pump(secret, peer, mtu, index, state);
    fresh.with(TunnView { handshaking: true, ..fresh.tun })
}

/// An initiation of the peer with this index, as the tunnel wrote it when it went over
/// into this state.
pub open spec fn is_greeting(b: Seq<u8>, index: u32, state: boringtun::noise::Tunn) -> bool {
    &&& is_initiation(b, index)
    &&& exists|made: boringtun::noise::Tunn| #[trigger]
        tunn_starts(made, OutcomeView::Network(b), state)
}

// ---------------------------------------------------------------------------
// Demultiplexing
// ---------------------------------------------------------------------------
/// Where the receiver index stands in a datagram, by its type.
pub open spec fn receiver_at(d: Seq<u8>) -> Option<int> {
    if d[0] == 2 {
        Some(8)
    } else if d[0] == 3 || d[0] == 4 {
        Some(4)
    } else {
        None
    }
}

/// The peer index in the receiver index of a datagram.
pub open spec fn peer_index(d: Seq<u8>) -> Option<u32> {
    if d.len() < 8 {
        None
    } else {
        match receiver_at(d) {
            Some(at) => if d.len() < at + 4 {
                None
            } else {
                Some((le32(d, at) / 256) as u32)
            },
            None => None,
        }
    }
}

/// Demultiplex an inbound WireGuard datagram to the owning peer index.
/// Reads the receiver index from handshake-response/cookie/transport-data
/// packets and drops the session slot to recover the peer index.
/// Returns None for packet types without a receiver index (e.g. handshake
/// initiation), which a client connecting through a relay does not receive.
pub fn peer_index_of(datagram: &[u8]) -> (r: Option<u32>)
    ensures
        r == peer_index(datagram@),
{
    if datagram.len() < 8 {
        return None;
    }
    let at: usize = match datagram[0] {
        2 => 8,  // handshake response: type, sender_index, receiver_index
        3 | 4 => 4,  // cookie reply / transport data: type, receiver_index
        _ => {
            return None;
        },
    };
    if datagram.len() < at + 4 {
        return None;
    }
    let low: u32 = datagram[at] as u32;
    let high: u32 = datagram[at + 1] as u32 + datagram[at + 2] as u32 * 0x100 + datagram[at + 3] as u32
        * 0x1_0000;
    assert(le32(datagram@, at as int) == high * 256 + low);
    Some(high)
}

// ---------------------------------------------------------------------------
// Laws
// ---------------------------------------------------------------------------
/// A datagram whose receiver index is the sender index of a peer's initiation is
/// demultiplexed to that peer.
pub proof fn law_response_finds_its_peer(init: Seq<u8>, index: u32, d: Seq<u8>)
    requires
        is_initiation(init, index),
        index < 0x100_0000,
        is_message(d),
        le32(d, 0) != 1,
        le32(d, receiver_at(d)->0) == le32(init, 4),
    ensures
        peer_index(d) == Some(index),
{
}

/// A packet sent on a fresh pump starts a handshake with the peer, and waits in the
/// queue until the session is up.
pub proof fn law_first_packet_starts_handshake(
    secret: Seq<u8>,
    peer: Seq<u8>,
    mtu: usize,
    index: u32,
    made: boringtun::noise::Tunn,
    packet: Seq<u8>,
    o: OutcomeView,
    after: TunnView,
)
    requires
        encapsulated(fresh_pump(secret, peer, mtu, index, made).tun, packet, o, after),
    ensures
        network_of(o) is Some,
        is_initiation(network_of(o)->0, index),
        after.queue == seq![packet],
        after.handshaking,
{
    assert(Seq::<Seq<u8>>::empty().push(packet) =~= seq![packet]);
}

/// Once a session is up, draining sends every packet that waited, in the order in
/// which they came, and leaves none.
pub proof fn law_session_flushes_queue(
    p: PumpView,
    d: Seq<u8>,
    o: OutcomeView,
    mid: TunnView,
    outs: Seq<Seq<u8>>,
    after: TunnView,
)
    requires
        d.len() > 0,
        received(p, d, o, mid, outs, after),
        mid.has_session,
    ensures
        outs.len() == p.tun.queue.len(),
        forall|i: int|
            0 <= i < outs.len() ==> is_data(#[trigger] outs[i], p.tun.queue[i].len()),
        exists|states: Seq<boringtun::noise::Tunn>|
            #![trigger drains(mid, outs, states, after.state)]
            states.len() == outs.len() + 1 && states[0] == mid.state && forall|i: int|
                0 <= i < outs.len() ==> #[trigger] outs[i] == tunn_seals(
                    states[i],
                    p.tun.queue[i],
                ),
        after.queue.len() == 0,
{
}

/// A datagram that is no WireGuard message changes nothing while no packet waits, and
/// nothing comes out.
pub proof fn law_noise_is_ignored(
    p: PumpView,
    d: Seq<u8>,
    o: OutcomeView,
    mid: TunnView,
    outs: Seq<Seq<u8>>,
    after: TunnView,
)
    requires
        d.len() > 0,
        !is_message(d),
        p.tun.queue.len() == 0,
        received(p, d, o, mid, outs, after),
    ensures
        received_results(o, outs) == Seq::<InboundView>::empty(),
        after == p.tun,
{
    assert(outs.len() == 0);
    assert(outs.map_values(|b: Seq<u8>| InboundView::Network(b)) =~= seq![]);
    assert(something(inbound_of(o)) =~= seq![]);
}

/// The receiver index stands behind the type and the sender index in a handshake response,
/// and behind the type in a cookie reply or a data message. Its low byte is the session
/// slot, and the other three are the peer's index, least significant first. Other types,
/// and datagrams that end before it, name no peer.
pub proof fn law_receiver_index_names_the_peer(
    before: Seq<u8>,
    slot: u8,
    a: u8,
    b: u8,
    c: u8,
    rest: Seq<u8>,
)
    requires
        before.len() > 0,
    ensures
        before[0] == 2 && before.len() == 8 ==> peer_index(before + seq![slot, a, b, c] + rest)
            == Some((a + 256 * b + 65536 * c) as u32),
        (before[0] == 3 || before[0] == 4) && before.len() == 4 ==> peer_index(
            before + seq![slot, a, b, c] + rest,
        ) == Some((a + 256 * b + 65536 * c) as u32),
        before[0] < 2 || before[0] > 4 ==> peer_index(before) is None,
        before.len() < 8 || (before[0] == 2 && before.len() < 12) ==> peer_index(before) is None,
        peer_index(Seq::empty()) is None,
{
    let d = before + seq![slot, a, b, c] + rest;
    let n = before.len() as int;
    assert(d[0] == before[0]);
    assert(d[n] == slot && d[n + 1] == a && d[n + 2] == b && d[n + 3] == c);
    if n == 8 || n == 4 {
        assert(le32(d, n) == slot + 256 * (a + 256 * b + 65536 * c));
        assert(le32(d, n) / 256 == a + 256 * b + 65536 * c);
    }
}

/// A tunnel's outcome is a datagram to send, a packet to deliver, or nothing to do.
pub proof fn law_outcomes_are_told_apart(b: Seq<u8>)
    ensures
        network_of(OutcomeView::Network(b)) == Some(b),
        network_of(OutcomeView::Packet(b)) is None,
        network_of(OutcomeView::Done) is None,
        network_of(OutcomeView::Failed) is None,
        inbound_of(OutcomeView::Network(b)) == InboundView::Network(b),
        inbound_of(OutcomeView::Packet(b)) == InboundView::Packet(b),
        inbound_of(OutcomeView::Done) is Nothing,
        inbound_of(OutcomeView::Failed) is Nothing,
{
}

/// What a datagram itself gives comes first, then what had waited, in order; an outcome
/// with nothing to do gives nothing.
pub proof fn law_own_result_comes_first(o: OutcomeView, outs: Seq<Seq<u8>>, i: int)
    requires
        0 <= i < outs.len(),
    ensures
        ({
            let own: int = if o is Network || o is Packet {
                1
            } else {
                0
            };
            let r = received_results(o, outs);
            &&& r.len() == own + outs.len()
            &&& o matches OutcomeView::Network(b) ==> r[0] == InboundView::Network(b)
            &&& o matches OutcomeView::Packet(p) ==> r[0] == InboundView::Packet(p)
            &&& r[own + i] == InboundView::Network(outs[i])
        }),
{
}

/// A new pump belongs to the key, the peer, the packet size and the index that it is made
/// with, keeps alive every five seconds, and holds no packet; one that was opened has
/// started its handshake and is otherwise the same. A pump takes packets of its size, and
/// of 1500 bytes at least.
pub proof fn law_new_pump_is_as_made(
    secret: Seq<u8>,
    peer: Seq<u8>,
    mtu: usize,
    index: u32,
    state: boringtun::noise::Tunn,
)
    ensures
        ({
            let p = fresh_pump(secret, peer, mtu, index, state);
            let q = opened_pump(secret, peer, mtu, index, state);
            &&& p.tun.secret == secret && p.tun.peer == peer && p.tun.index == index && p.mtu == mtu
            &&& q.tun.secret == secret && q.tun.peer == peer && q.tun.index == index && q.mtu == mtu
            &&& p.tun.keepalive == 5 && q.tun.keepalive == 5
            &&& p.tun.queue.len() == 0 && q.tun.queue.len() == 0
            &&& !p.tun.handshaking && q.tun.handshaking
            &&& !p.tun.has_session && !q.tun.has_session
            &&& p.tun.state == state && q.tun.state == state
            &&& p.room() >= mtu && p.room() >= 1500 && (p.room() == mtu || p.room() == 1500)
        }),
{
}

/// A data message that is too long for the pump, or whose counter is among the last 1024,
/// is passed over, and every other datagram is handed to the tunnel.
pub proof fn law_only_unfit_data_is_passed_over(
    p: PumpView,
    d: Seq<u8>,
    o: OutcomeView,
    after: TunnView,
)
    requires
        fed(p, d, o, after),
        d.len() >= 32,
        d[0] == 4 && d[1] == 0 && d[2] == 0 && d[3] == 0,
    ensures
        ({
            let counter = d[8] + 0x100 * d[9] + 0x1_0000 * d[10] + 0x100_0000 * d[11]
                + 0x1_0000_0000 * (d[12] + 0x100 * d[13] + 0x1_0000 * d[14] + 0x100_0000 * d[15]);
            let long = d.len() > 1548 && d.len() > p.mtu + 48;
            &&& long || counter + 1024 >= 0x1_0000_0000_0000_0000 ==> o is Failed && after == p.tun
            &&& !long && counter + 1024 < 0x1_0000_0000_0000_0000 ==> decapsulated(
                p.tun,
                d,
                o,
                after,
            )
        }),
{
}

/// Packets that wait for a session are not lost while there is none: draining sends at
/// most an initiation and keeps them all.
pub proof fn law_waiting_packets_are_kept(t: TunnView, outs: Seq<Seq<u8>>, after: TunnView)
    requires
        drained_out(t, outs, after),
        !t.has_session,
    ensures
        after.queue.to_multiset() =~= t.queue.to_multiset(),
        after.queue.len() == t.queue.len(),
        outs.len() <= 1,
        outs.len() == 1 <==> t.queue.len() > 0 && !t.handshaking,
        outs.len() == 1 ==> is_initiation(outs[0], t.index) && after.handshaking,
        !after.has_session,
        after.secret == t.secret && after.peer == t.peer && after.index == t.index,
{
    if t.queue.len() > 0 {
        lemma_rotated(t.queue);
        lemma_rotated(rotated(t.queue));
    }
}

proof fn lemma_rotated(q: Seq<Seq<u8>>)
    requires
        q.len() > 0,
    ensures
        rotated(q).to_multiset() =~= q.to_multiset(),
        rotated(q).len() == q.len(),
{
    let rest = q.drop_first();
    vstd::seq_lib::lemma_multiset_commutative(seq![q[0]], rest);
    vstd::seq_lib::lemma_multiset_commutative(rest, seq![q[0]]);
    assert(seq![q[0]] + rest =~= q);
    assert(rest + seq![q[0]] =~= rotated(q));
}

/// A public key is 32 bytes in base64, with white space around it passed over; what is
/// wrong with another text is told.
pub proof fn law_public_key_is_read(w: Seq<char>, s: Seq<char>, x: Seq<char>)
    requires
        forall|i: int| 0 <= i < w.len() ==> crate::text::is_white(#[trigger] w[i]),
        forall|i: int| 0 <= i < x.len() ==> crate::text::is_white(#[trigger] x[i]),
        s.len() > 0 ==> !crate::text::is_white(s[0]) && !crate::text::is_white(s.last()),
    ensures
        match b64_decoded(s) {
            Ok(raw) => {
                &&& raw.len() == 32 ==> public_key_of(w + s + x) == Ok::<Seq<u8>, Seq<char>>(raw)
                &&& raw.len() != 32 ==> public_key_of(w + s + x) == Err::<Seq<u8>, Seq<char>>(
                    "pubkey not 32 bytes"@,
                )
            },
            Err(e) => public_key_of(w + s + x) == Err::<Seq<u8>, Seq<char>>(
                "bad pubkey b64: "@ + e,
            ),
        },
{
    crate::text::law_trimming_drops_white_space_alone(w, s, x, ' ');
}

/// The messages of WireGuard are told by their type, in the first of four bytes whose others
/// are zero, and their size: an initiation of 148 bytes, a response of 92, a cookie reply of
/// 64, and data with 32 bytes around the packet.
pub proof fn law_messages_are_told_by_type_and_size(d: Seq<u8>, index: u32, len: nat)
    requires
        d.len() >= 4,
    ensures
        ({
            let plain = d[1] == 0 && d[2] == 0 && d[3] == 0;
            &&& is_message(d) <==> plain && {
                ||| d[0] == 1 && d.len() == 148
                ||| d[0] == 2 && d.len() == 92
                ||| d[0] == 3 && d.len() == 64
                ||| d[0] == 4 && d.len() >= 32
            }
            &&& is_data(d, len) <==> plain && d[0] == 4 && d.len() == len + 32
            &&& is_data_message(d) <==> plain && d[0] == 4 && d.len() >= 32
            &&& is_initiation(d, index) && index < 0x100_0000 ==> plain && d[0] == 1 && d.len()
                == 148 && d[5] + 0x100 * d[6] + 0x1_0000 * d[7] == index
        }),
{
    if is_initiation(d, index) {
        let high = d[5] + 0x100 * d[6] + 0x1_0000 * d[7];
        assert(le32(d, 4) == d[4] + 256 * high);
        assert((d[4] + 256 * high) / 256 == high);
    }
}

/// A datagram is first taken by the tunnel, and then the packets that wait are tried.
pub proof fn law_datagram_then_queue(
    p: PumpView,
    d: Seq<u8>,
    o: OutcomeView,
    mid: TunnView,
    outs: Seq<Seq<u8>>,
    after: TunnView,
)
    requires
        received(p, d, o, mid, outs, after),
        0 < d.len() < 32,
    ensures
        decapsulated(p.tun, d, o, mid),
        mid.queue == p.tun.queue,
        p.tun.queue.len() == 0 ==> outs.len() == 0 && after == mid,
        !is_message(d) ==> mid == p.tun && o is Failed,
{
}

/// A packet can be sealed when the cipher takes it and memory holds it with its overhead.
pub proof fn law_sealable_is_bounded(len: int)
    ensures
        sealable(len) <==> len <= 274_877_906_880 && len + 32 <= isize::MAX,
{
}

} // verus!
