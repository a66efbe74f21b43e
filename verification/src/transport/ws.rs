//! WebSocket framing (RFC 6455), client side: frames are written masked and read
//! as the server sends them.
use crate::bytes::{be16, be64, be_value, copy_range, push_all, push_be16, push_be64, read_be};
use crate::crypto::{b64_encode, b64_encoded, random_array};
use crate::text::{from_utf8_lossy, join2, utf8_lossy};
use vstd::prelude::*;
use vstd::string::*;

verus! {

/// Largest control-plane frame we accept; guards against a hostile length field.
pub const MAX_FRAME: u64 = 16_777_216;

/// One WebSocket frame with its payload unmasked.
#[derive(Debug)]
pub struct Frame {
    pub fin: bool,
    pub opcode: u8,
    pub payload: Vec<u8>,
}

/// What the bytes of a frame that have been read so far call for.
#[derive(Debug)]
pub enum ReadStep {
    /// Read exactly this many more bytes.
    Need(usize),
    /// The frame declares more than [`MAX_FRAME`] bytes of payload.
    TooLarge,
    /// The frame is complete.
    Complete(Frame),
}

// ---------------------------------------------------------------------------
// Specifications
// ---------------------------------------------------------------------------
/// The length field of a masked frame.
pub open spec fn length_field(len: nat) -> Seq<u8> {
    if len < 126 {
        seq![(0x80 + len) as u8]
    } else if len <= 0xffff {
        seq![0xfeu8] + be16(len as u16)
    } else {
        seq![0xffu8] + be64(len as u64)
    }
}

/// `payload` with each byte xored with the mask byte of its position modulo four.
pub open spec fn masked(payload: Seq<u8>, mask: Seq<u8>) -> Seq<u8> {
    Seq::new(payload.len(), |i: int| payload[i] ^ mask[i % 4])
}

/// The client frame of `payload`: FIN set, payload masked.
pub open spec fn client_frame(opcode: u8, payload: Seq<u8>, mask: Seq<u8>) -> Seq<u8> {
    seq![0x80u8 | opcode] + length_field(payload.len()) + mask + masked(payload, mask)
}

/// The content of a [`Frame`].
pub struct FrameView {
    pub fin: bool,
    pub opcode: u8,
    pub payload: Seq<u8>,
}

impl View for Frame {
    type V = FrameView;

    open spec fn view(&self) -> FrameView {
        FrameView { fin: self.fin, opcode: self.opcode, payload: self.payload@ }
    }
}

/// The content of a [`ReadStep`].
pub enum StepView {
    Need(nat),
    TooLarge,
    Complete(FrameView),
}

impl View for ReadStep {
    type V = StepView;

    open spec fn view(&self) -> StepView {
        match self {
            ReadStep::Need(n) => StepView::Need(*n as nat),
            ReadStep::TooLarge => StepView::TooLarge,
            ReadStep::Complete(f) => StepView::Complete(f@),
        }
    }
}

/// Bytes of the extended length field that the second header byte announces.
pub open spec fn extended_size(h1: u8) -> nat {
    if h1 & 0x7f == 126 {
        2
    } else if h1 & 0x7f == 127 {
        8
    } else {
        0
    }
}

/// Bytes of the mask that the second header byte announces.
pub open spec fn mask_size(h1: u8) -> nat {
    if h1 & 0x80 != 0 {
        4
    } else {
        0
    }
}

/// The payload length that a header declares.
pub open spec fn declared_length(b: Seq<u8>) -> nat {
    if extended_size(b[1]) == 0 {
        (b[1] & 0x7f) as nat
    } else {
        be_value(b.subrange(2, 2 + extended_size(b[1]) as int))
    }
}

/// The frame in `b`, whose header takes `head` bytes.
pub open spec fn frame_in(b: Seq<u8>, head: int) -> FrameView {
    let body = b.subrange(head, head + declared_length(b));
    FrameView {
        fin: b[0] & 0x80 != 0,
        opcode: b[0] & 0x0f,
        payload: if mask_size(b[1]) == 4 {
            masked(body, b.subrange(head - 4, head))
        } else {
            body
        },
    }
}

/// What the bytes `b`, read from the start of a frame, call for.
pub open spec fn frame_step(b: Seq<u8>) -> StepView {
    if b.len() < 2 {
        StepView::Need((2 - b.len()) as nat)
    } else if b.len() < 2 + extended_size(b[1]) {
        StepView::Need((2 + extended_size(b[1]) - b.len()) as nat)
    } else if declared_length(b) > MAX_FRAME {
        StepView::TooLarge
    } else {
        let head = 2 + extended_size(b[1]) + mask_size(b[1]);
        if b.len() < head {
            StepView::Need((head - b.len()) as nat)
        } else if b.len() < head + declared_length(b) {
            StepView::Need((head + declared_length(b) - b.len()) as nat)
        } else {
            StepView::Complete(frame_in(b, head as int))
        }
    }
}

/// The part of a message that has arrived, and whether the message is text.
#[derive(Debug)]
pub struct Inbox {
    msg: Vec<u8>,
    is_text: bool,
}

/// What to do with a frame.
#[derive(Debug)]
pub enum Received {
    /// Answer the ping with a pong of this payload.
    Ping(Vec<u8>),
    /// Nothing; read the next frame.
    Skip,
    /// The server has closed the connection.
    Closed,
    /// A text message is complete.
    Text(Vec<u8>),
    /// The opcode is none that the protocol defines.
    UnknownOpcode,
}

/// The content of a [`Received`].
pub enum ReceivedView {
    Ping(Seq<u8>),
    Skip,
    Closed,
    Text(Seq<u8>),
    UnknownOpcode,
}

impl View for Received {
    type V = ReceivedView;

    open spec fn view(&self) -> ReceivedView {
        match self {
            Received::Ping(p) => ReceivedView::Ping(p@),
            Received::Skip => ReceivedView::Skip,
            Received::Closed => ReceivedView::Closed,
            Received::Text(m) => ReceivedView::Text(m@),
            Received::UnknownOpcode => ReceivedView::UnknownOpcode,
        }
    }
}

/// The content of an [`Inbox`].
pub struct InboxView {
    pub msg: Seq<u8>,
    pub is_text: bool,
}

impl View for Inbox {
    type V = InboxView;

    closed spec fn view(&self) -> InboxView {
        InboxView { msg: self.msg@, is_text: self.is_text }
    }
}

/// An inbox that holds nothing.
pub open spec fn empty_inbox() -> InboxView {
    InboxView { msg: Seq::empty(), is_text: false }
}

/// The message so far once a data frame has been added.
pub open spec fn with_data(i: InboxView, opcode: u8, payload: Seq<u8>) -> InboxView {
    if opcode == 0 {
        InboxView { msg: i.msg + payload, is_text: i.is_text }
    } else {
        InboxView { msg: payload, is_text: opcode == 1 }
    }
}

/// What a frame does to the inbox, and what is to be done with it. A text or binary
/// frame starts a message and a continuation frame adds to it; the last frame of a
/// text message delivers it and that of another message drops it.
pub open spec fn frame_received(i: InboxView, f: FrameView) -> (InboxView, ReceivedView) {
    if f.opcode == 9 {
        (i, ReceivedView::Ping(f.payload))
    } else if f.opcode == 10 {
        (i, ReceivedView::Skip)
    } else if f.opcode == 8 {
        (i, ReceivedView::Closed)
    } else if f.opcode <= 2 {
        let now = with_data(i, f.opcode, f.payload);
        if !f.fin {
            (now, ReceivedView::Skip)
        } else if now.is_text {
            (empty_inbox(), ReceivedView::Text(now.msg))
        } else {
            (InboxView { msg: Seq::empty(), is_text: now.is_text }, ReceivedView::Skip)
        }
    } else {
        (i, ReceivedView::UnknownOpcode)
    }
}

/// The request that asks the server to upgrade the connection.
pub open spec fn upgrade_text(
    token: Seq<char>,
    client_type: Seq<char>,
    hostport: Seq<char>,
    key_b64: Seq<char>,
) -> Seq<char> {
    "GET /api/v1/ws?token="@ + token + "&clientType="@ + client_type + " HTTP/1.1\r\nHost: "@
        + hostport + "\r\nUpgrade: websocket\r\nConnection: Upgrade\r\nSec-WebSocket-Key: "@
        + key_b64 + "\r\nSec-WebSocket-Version: 13\r\n\r\n"@
}

/// What the bytes of a response head that have been read so far call for.
#[derive(Debug, Clone, Copy, PartialEq, Eq, Structural)]
pub enum HeadStep {
    /// Read one more byte.
    More,
    /// The blank line has been read.
    Complete,
    /// No blank line among the first 8192 bytes.
    TooLarge,
}

/// The head ends with a blank line.
pub open spec fn ends_head(head: Seq<u8>) -> bool {
    &&& head.len() >= 4
    &&& head.skip(head.len() - 4) == seq![13u8, 10, 13, 10]
}

pub open spec fn head_step_of(head: Seq<u8>) -> HeadStep {
    if ends_head(head) {
        HeadStep::Complete
    } else if head.len() > 8192 {
        HeadStep::TooLarge
    } else {
        HeadStep::More
    }
}

/// The bytes before the first carriage return.
pub open spec fn status_line(head: Seq<u8>) -> Seq<u8> {
    match head.index_of_first(13u8) {
        Some(i) => head.take(i),
        None => head,
    }
}

/// `HTTP/1.1 101`
pub open spec fn switching_protocols() -> Seq<u8> {
    seq![72u8, 84, 84, 80, 47, 49, 46, 49, 32, 49, 48, 49]
}

/// The server has accepted the upgrade.
pub open spec fn upgraded(head: Seq<u8>) -> bool {
    switching_protocols().is_prefix_of(status_line(head))
}

// ---------------------------------------------------------------------------
// Executable functions
// ---------------------------------------------------------------------------
/// Appends `payload` masked with the four bytes of `mask`.
fn push_masked(out: &mut Vec<u8>, payload: &[u8], mask: &[u8])
    requires
        mask@.len() == 4,
    ensures
        final(out)@ == old(out)@ + masked(payload@, mask@),
{
    let ghost start = out@;
    let mut i: usize = 0;
    while i < payload.len()
        invariant
            i <= payload@.len(),
            mask@.len() == 4,
            out@ == start + masked(payload@, mask@).take(i as int),
        decreases payload@.len() - i,
    {
        out.push(payload[i] ^ mask[i % 4]);
        i += 1;
        assert(out@ == start + masked(payload@, mask@).take(i as int));
    }
    assert(masked(payload@, mask@).take(i as int) == masked(payload@, mask@));
}

/// Builds one client frame: FIN set, masked payload (clients must mask per
/// RFC 6455).
pub fn encode_frame(opcode: u8, payload: &[u8], mask: [u8; 4]) -> (r: Vec<u8>)
    ensures
        r@ == client_frame(opcode, payload@, mask@),
{
    let mut frame: Vec<u8> = Vec::new();
    frame.push(0x80 | opcode);
    let len: usize = payload.len();
    if len < 126 {
        frame.push(0x80 + len as u8);
    } else if len <= 0xffff {
        frame.push(0xfe);
        push_be16(&mut frame, len as u16);
    } else {
        frame.push(0xff);
        push_be64(&mut frame, len as u64);
    }
    assert(frame@ == seq![0x80u8 | opcode] + length_field(payload@.len()));
    push_all(&mut frame, mask.as_slice());
    push_masked(&mut frame, payload, mask.as_slice());
    frame
}

/// Says what the bytes of a frame that have been read so far call for.
pub fn read_step(b: &[u8]) -> (r: ReadStep)
    ensures
        r@ == frame_step(b@),
{
    if b.len() < 2 {
        return ReadStep::Need(2 - b.len());
    }
    let h0 = b[0];
    let h1 = b[1];
    let code = h1 & 0x7f;
    let ext: usize = if code == 126 {
        2
    } else if code == 127 {
        8
    } else {
        0
    };
    if b.len() < 2 + ext {
        return ReadStep::Need(2 + ext - b.len());
    }
    let len: u64 = if ext == 0 {
        code as u64
    } else {
        read_be(b, 2, 2 + ext)
    };
    if len > MAX_FRAME {
        return ReadStep::TooLarge;
    }
    let size: usize = len as usize;
    let masking = h1 & 0x80 != 0;
    let head: usize = if masking {
        6 + ext
    } else {
        2 + ext
    };
    if b.len() < head {
        return ReadStep::Need(head - b.len());
    }
    if b.len() - head < size {
        return ReadStep::Need(head + size - b.len());
    }
    let body = copy_range(b, head, head + size);
    let payload = if masking {
        let mask = copy_range(b, head - 4, head);
        let mut clear: Vec<u8> = Vec::new();
        push_masked(&mut clear, body.as_slice(), mask.as_slice());
        assert(clear@ == masked(body@, mask@));
        clear
    } else {
        body
    };
    ReadStep::Complete(Frame { fin: h0 & 0x80 != 0, opcode: h0 & 0x0f, payload })
}

/// Builds one client frame under a fresh random mask.
pub fn write_frame(opcode: u8, payload: &[u8]) -> (r: Vec<u8>)
    ensures
        exists|mask: Seq<u8>| mask.len() == 4 && r@ == #[trigger] client_frame(
            opcode,
            payload@,
            mask,
        ),
{
    let mask: [u8; 4] = random_array();
    encode_frame(opcode, payload, mask)
}

impl Inbox {
    pub fn new() -> (r: Inbox)
        ensures
            r@ == empty_inbox(),
    {
        Inbox { msg: Vec::new(), is_text: false }
    }

    /// Takes the next frame in.
    pub fn receive(&mut self, f: Frame) -> (r: Received)
        ensures
            (final(self)@, r@) == frame_received(old(self)@, f@),
    {
        match f.opcode {
            9 => Received::Ping(f.payload),
            10 => Received::Skip,
            8 => Received::Closed,
            0 | 1 | 2 => {
                if f.opcode == 1 {
                    self.msg.clear();
                    self.is_text = true;
                } else if f.opcode == 2 {
                    self.msg.clear();
                    self.is_text = false;
                }
                push_all(&mut self.msg, f.payload.as_slice());
                assert(self@.msg == with_data(old(self)@, f.opcode, f.payload@).msg);
                if f.fin {
                    if self.is_text {
                        let mut whole: Vec<u8> = Vec::new();
                        whole.append(&mut self.msg);
                        self.is_text = false;
                        assert(self@.msg == Seq::<u8>::empty());
                        assert(whole@ == with_data(old(self)@, f.opcode, f.payload@).msg);
                        return Received::Text(whole);
                    }
                    self.msg.clear();
                }
                Received::Skip
            },
            _ => Received::UnknownOpcode,
        }
    }
}

/// The upgrade request for a key that has been chosen.
pub fn upgrade_request(token: &str, client_type: &str, hostport: &str, key: [u8; 16]) -> (r: String)
    ensures
        r@ == upgrade_text(token@, client_type@, hostport@, b64_encoded(key@)),
{
    let key_b64 = b64_encode(key.as_slice());
    let mut r = "GET /api/v1/ws?token=".to_owned();
    r.append(token);
    r.append("&clientType=");
    r.append(client_type);
    r.append(" HTTP/1.1\r\nHost: ");
    r.append(hostport);
    r.append("\r\nUpgrade: websocket\r\nConnection: Upgrade\r\nSec-WebSocket-Key: ");
    r.append(key_b64.as_str());
    r.append("\r\nSec-WebSocket-Version: 13\r\n\r\n");
    r
}

/// The upgrade request with a fresh random key. `client_type` is "newt" for a site
/// session or "olm" for a client session.
pub fn new_upgrade_request(token: &str, client_type: &str, hostport: &str) -> (r: String)
    ensures
        exists|key: Seq<u8>|
            key.len() == 16 && r@ == upgrade_text(
                token@,
                client_type@,
                hostport@,
                #[trigger] b64_encoded(key),
            ),
{
    let key: [u8; 16] = random_array();
    upgrade_request(token, client_type, hostport, key)
}

/// Says whether the response head is complete after the bytes read so far.
pub fn head_step(head: &[u8]) -> (r: HeadStep)
    ensures
        r == head_step_of(head@),
{
    let n: usize = head.len();
    if n >= 4 && head[n - 4] == 13 && head[n - 3] == 10 && head[n - 2] == 13 && head[n - 1] == 10 {
        assert(head@.skip(n - 4) == seq![13u8, 10, 13, 10]);
        HeadStep::Complete
    } else {
        proof {
            if ends_head(head@) {
                let tail = head@.skip(n - 4);
                assert(tail[0] == head@[n - 4] && tail[1] == head@[n - 3] && tail[2] == head@[n - 2]
                    && tail[3] == head@[n - 1]);
            }
        }
        if n > 8192 {
            HeadStep::TooLarge
        } else {
            HeadStep::More
        }
    }
}

/// Accepts the response head of a server that has switched protocols; otherwise
/// tells what it answered.
pub fn check_upgrade(head: &[u8]) -> (r: Result<(), String>)
    ensures
        match r {
            Ok(_) => upgraded(head@),
            Err(e) => !upgraded(head@) && e@ == "websocket upgrade failed: "@ + utf8_lossy(
                status_line(head@),
            ),
        },
{
    let mut end: usize = 0;
    proof {
        head@.index_of_first_ensures(13u8);
    }
    while end < head.len() && head[end] != 13
        invariant
            end <= head@.len(),
            forall|j: int| 0 <= j < end ==> head@[j] != 13,
        decreases head@.len() - end,
    {
        end += 1;
    }
    let status = copy_range(head, 0, end);
    assert(status@ == status_line(head@)) by {
        match head@.index_of_first(13u8) {
            Some(i) => {
                if end < i {
                    assert(head@[end as int] == 13);
                }
            },
            None => {
                if end < head@.len() {
                    assert(head@.contains(13u8));
                }
                assert(head@.subrange(0, end as int) == head@);
            },
        }
    }
    let want: [u8; 12] = [72, 84, 84, 80, 47, 49, 46, 49, 32, 49, 48, 49];
    assert(want@ == switching_protocols());
    let mut i: usize = 0;
    while i < 12 && i < status.len() && status[i] == want[i]
        invariant
            i <= 12,
            i <= status@.len(),
            want@ == switching_protocols(),
            forall|j: int| 0 <= j < i ==> status@[j] == want@[j],
        decreases 12 - i,
    {
        i += 1;
    }
    if i == 12 {
        assert(switching_protocols().is_prefix_of(status@)) by {
            assert(status@.subrange(0, 12) =~= want@);
        }
        Ok(())
    } else {
        proof {
            if switching_protocols().is_prefix_of(status@) {
                assert(status@.subrange(0, 12)[i as int] == want@[i as int]);
            }
        }
        let shown = from_utf8_lossy(status.as_slice());
        Err(join2("websocket upgrade failed: ", shown.as_str()))
    }
}

// ---------------------------------------------------------------------------
// Laws
// ---------------------------------------------------------------------------
/// Bytes that are one complete frame and nothing more.
pub open spec fn is_one_frame(b: Seq<u8>) -> bool {
    &&& frame_step(b) is Complete
    &&& b.len() == 2 + extended_size(b[1]) + mask_size(b[1]) + declared_length(b)
}

proof fn lemma_header_bits(opcode: u8)
    requires
        opcode < 16,
    ensures
        (0x80u8 | opcode) & 0x80 != 0,
        (0x80u8 | opcode) & 0x0f == opcode,
{
    assert((0x80u8 | opcode) & 0x80 != 0) by (bit_vector);
    assert(opcode < 16 ==> (0x80u8 | opcode) & 0x0f == opcode) by (bit_vector);
}

proof fn lemma_length_bits(len: u8)
    requires
        len < 126,
    ensures
        (0x80 + len) as u8 & 0x7f == len,
        (0x80 + len) as u8 & 0x80 != 0,
        0xfeu8 & 0x7f == 126,
        0xfeu8 & 0x80 != 0,
        0xffu8 & 0x7f == 127,
        0xffu8 & 0x80 != 0,
{
    assert(len < 126 ==> (0x80 + len) as u8 & 0x7f == len) by (bit_vector);
    assert(len < 126 ==> (0x80 + len) as u8 & 0x80 != 0) by (bit_vector);
    assert(0xfeu8 & 0x7f == 126 && 0xfeu8 & 0x80 != 0) by (bit_vector);
    assert(0xffu8 & 0x7f == 127 && 0xffu8 & 0x80 != 0) by (bit_vector);
}

/// Masking twice with the same mask gives the payload back.
pub proof fn law_mask_twice(payload: Seq<u8>, mask: Seq<u8>)
    ensures
        masked(masked(payload, mask), mask) == payload,
{
    assert forall|i: int| 0 <= i < payload.len() implies #[trigger] masked(
        masked(payload, mask),
        mask,
    )[i] == payload[i] by {
        let p = payload[i];
        let m = mask[i % 4];
        assert((p ^ m) ^ m == p) by (bit_vector);
    }
    assert(masked(masked(payload, mask), mask) =~= payload);
}

/// Reading the frame that was written gives back its opcode and its payload, with
/// FIN set, and takes up all of its bytes.
pub proof fn law_read_gives_back_write(opcode: u8, payload: Seq<u8>, mask: Seq<u8>)
    requires
        opcode < 16,
        mask.len() == 4,
        payload.len() <= MAX_FRAME,
    ensures
        frame_step(client_frame(opcode, payload, mask)) == StepView::Complete(
            FrameView { fin: true, opcode, payload },
        ),
        is_one_frame(client_frame(opcode, payload, mask)),
{
    let b = client_frame(opcode, payload, mask);
    let field = length_field(payload.len());
    let n = payload.len();
    lemma_header_bits(opcode);
    assert(b[0] == 0x80u8 | opcode);
    assert(b[1] == field[0]);
    if n < 126 {
        lemma_length_bits(n as u8);
    } else {
        lemma_length_bits(0);
        let ext = field.skip(1);
        assert(b.subrange(2, 1 + field.len() as int) == ext);
        if n <= 0xffff {
            assert(ext == be16(n as u16));
            crate::bytes::law_bytes16_denote(crate::bytes::ByteOrder::Big, n as u16);
        } else {
            assert(ext == be64(n as u64));
            crate::bytes::law_be64_denotes(n as u64);
        }
    }
    assert(declared_length(b) == n);
    let head = 1 + field.len() + 4;
    assert(b.subrange(head - 4, head as int) == mask);
    assert(b.subrange(head as int, (head + n) as int) == masked(payload, mask));
    law_mask_twice(payload, mask);
}

/// A reader that follows the steps never reads past the frame: before the end of a
/// frame it asks for at least one byte, and for none behind the frame.
pub proof fn law_never_reads_past_frame(b: Seq<u8>, k: int)
    requires
        is_one_frame(b),
        0 <= k < b.len(),
    ensures
        frame_step(b.take(k)) matches StepView::Need(n) && 0 < n && k + n <= b.len(),
{
    let p = b.take(k);
    if k >= 2 {
        assert(p[1] == b[1]);
        let e = extended_size(b[1]) as int;
        if k >= 2 + e {
            assert(p.subrange(2, 2 + e) == b.subrange(2, 2 + e));
        }
    }
}

/// The frames of one text message: the first is a text frame, the others are
/// continuations, and the last alone has FIN set.
pub open spec fn text_frames(parts: Seq<Seq<u8>>) -> Seq<FrameView> {
    Seq::new(
        parts.len(),
        |i: int|
            FrameView {
                fin: i == parts.len() - 1,
                opcode: if i == 0 {
                    1
                } else {
                    0
                },
                payload: parts[i],
            },
    )
}

/// The inbox after `frames`.
pub open spec fn inbox_after(i: InboxView, frames: Seq<FrameView>) -> InboxView
    decreases frames.len(),
{
    if frames.len() == 0 {
        i
    } else {
        frame_received(inbox_after(i, frames.drop_last()), frames.last()).0
    }
}

proof fn lemma_parts_collected(i: InboxView, parts: Seq<Seq<u8>>, k: int)
    requires
        0 < k < parts.len(),
    ensures
        inbox_after(i, text_frames(parts).take(k)) == (InboxView {
            msg: parts.take(k).flatten(),
            is_text: true,
        }),
    decreases k,
{
    let frames = text_frames(parts).take(k);
    let before = frames.drop_last();
    assert(parts.take(k).drop_last() == parts.take(k - 1));
    assert(parts.take(k) == parts.take(k - 1).push(parts[k - 1]));
    parts.take(k - 1).lemma_flatten_push(parts[k - 1]);
    assert(frames.last() == text_frames(parts)[k - 1]);
    if k == 1 {
        assert(parts.take(0) == Seq::<Seq<u8>>::empty());
        assert(Seq::<Seq<u8>>::empty().flatten() == Seq::<u8>::empty());
        assert(before == Seq::<FrameView>::empty());
    } else {
        assert(before == text_frames(parts).take(k - 1));
        lemma_parts_collected(i, parts, k - 1);
    }
}

/// A text message that is split over any number of frames is delivered whole when
/// its last frame arrives, whatever the inbox held before.
pub proof fn law_fragments_are_reassembled(i: InboxView, parts: Seq<Seq<u8>>)
    requires
        parts.len() > 0,
    ensures
        frame_received(
            inbox_after(i, text_frames(parts).drop_last()),
            text_frames(parts).last(),
        ).1 == ReceivedView::Text(parts.flatten()),
{
    let n = parts.len() as int;
    let before = text_frames(parts).drop_last();
    assert(before == text_frames(parts).take(n - 1));
    assert(parts == parts.drop_last().push(parts.last()));
    parts.drop_last().lemma_flatten_push(parts.last());
    assert(parts.drop_last() == parts.take(n - 1));
    if n > 1 {
        lemma_parts_collected(i, parts, n - 1);
    } else {
        assert(parts.drop_last() == Seq::<Seq<u8>>::empty());
        assert(Seq::<Seq<u8>>::empty().flatten() == Seq::<u8>::empty());
        assert(Seq::<u8>::empty() + parts.last() == parts.last());
    }
}

/// Pings and pongs between the frames of a message do not disturb it.
pub proof fn law_control_frames_keep_message(i: InboxView, f: FrameView)
    requires
        f.opcode == 9 || f.opcode == 10,
    ensures
        frame_received(i, f).0 == i,
{
}

/// A header and a payload as a server sends them, without a mask: FIN and opcode in the
/// first byte, then the length, in one byte, or behind 126 in two, or behind 127 in
/// eight, the most significant first.
pub open spec fn server_frame(fin: bool, opcode: u8, payload: Seq<u8>) -> Seq<u8> {
    let n = payload.len();
    let first = if fin {
        (128 + opcode) as u8
    } else {
        opcode
    };
    let length = if n < 126 {
        seq![n as u8]
    } else if n < 65536 {
        seq![126u8, (n / 256) as u8, (n % 256) as u8]
    } else {
        seq![
            127u8,
            0,
            0,
            0,
            0,
            (n / 0x100_0000) as u8,
            (n / 0x1_0000 % 256) as u8,
            (n / 0x100 % 256) as u8,
            (n % 256) as u8,
        ]
    };
    seq![first] + length + payload
}

proof fn lemma_first_bits(opcode: u8)
    requires
        opcode < 16,
    ensures
        (128 + opcode) as u8 & 0x80 != 0,
        (128 + opcode) as u8 & 0x0f == opcode,
        opcode & 0x80 == 0,
        opcode & 0x0f == opcode,
        (128 + opcode) as u8 == 0x80u8 | opcode,
{
    assert(opcode < 16 ==> (128 + opcode) as u8 & 0x80 != 0) by (bit_vector);
    assert(opcode < 16 ==> (128 + opcode) as u8 & 0x0f == opcode) by (bit_vector);
    assert(opcode < 16 ==> opcode & 0x80 == 0) by (bit_vector);
    assert(opcode < 16 ==> opcode & 0x0f == opcode) by (bit_vector);
    assert(opcode < 16 ==> (128 + opcode) as u8 == 0x80u8 | opcode) by (bit_vector);
}

proof fn lemma_plain_length_bits(n: u8)
    requires
        n < 128,
    ensures
        n & 0x7f == n,
        n & 0x80 == 0,
{
    assert(n < 128 ==> n & 0x7f == n && n & 0x80 == 0) by (bit_vector);
}

/// A frame of a server, which is not masked, is read with its FIN bit, its opcode and its
/// payload, whatever its length is; what follows it is left alone.
pub proof fn law_server_frame_is_read(fin: bool, opcode: u8, payload: Seq<u8>, rest: Seq<u8>)
    requires
        opcode < 16,
        payload.len() <= 16_777_216,
    ensures
        frame_step(server_frame(fin, opcode, payload) + rest) == StepView::Complete(
            FrameView { fin, opcode, payload },
        ),
        is_one_frame(server_frame(fin, opcode, payload)),
{
    let one = server_frame(fin, opcode, payload);
    lemma_server_frame(fin, opcode, payload, rest);
    lemma_server_frame(fin, opcode, payload, seq![]);
    assert(one + Seq::<u8>::empty() =~= one);
}

proof fn lemma_server_frame(fin: bool, opcode: u8, payload: Seq<u8>, rest: Seq<u8>)
    requires
        opcode < 16,
        payload.len() <= 16_777_216,
    ensures
        ({
            let b = server_frame(fin, opcode, payload) + rest;
            &&& frame_step(b) == StepView::Complete(FrameView { fin, opcode, payload })
            &&& server_frame(fin, opcode, payload).len() == 2 + extended_size(b[1]) + mask_size(
                b[1],
            ) + declared_length(b)
        }),
{
    let n = payload.len();
    let b = server_frame(fin, opcode, payload) + rest;
    lemma_first_bits(opcode);
    let code: u8 = if n < 126 {
        n as u8
    } else if n < 65536 {
        126
    } else {
        127
    };
    lemma_plain_length_bits(code);
    assert(b[1] == code);
    let head: int = if n < 126 {
        2
    } else if n < 65536 {
        4
    } else {
        10
    };
    if n >= 126 {
        let ext = b.subrange(2, head);
        reveal_with_fuel(be_value, 9);
        if n < 65536 {
            assert(ext =~= seq![(n / 256) as u8, (n % 256) as u8]);
            assert(be_value(ext) == n);
        } else {
            assert(ext =~= seq![
                0u8,
                0,
                0,
                0,
                (n / 0x100_0000) as u8,
                (n / 0x1_0000 % 256) as u8,
                (n / 0x100 % 256) as u8,
                (n % 256) as u8,
            ]);
            lemma_eight_digits(ext, n);
        }
    }
    assert(declared_length(b) == n);
    assert(b.subrange(head, head + n) =~= payload);
}

proof fn lemma_eight_digits(ext: Seq<u8>, n: nat)
    requires
        n <= 16_777_216,
        ext == seq![
            0u8,
            0,
            0,
            0,
            (n / 0x100_0000) as u8,
            (n / 0x1_0000 % 256) as u8,
            (n / 0x100 % 256) as u8,
            (n % 256) as u8,
        ],
    ensures
        be_value(ext) == n,
{
    assert(ext =~= be64(n as u64));
    crate::bytes::law_be64_denotes(n as u64);
}

/// A frame that declares more than sixteen mebibytes is refused as soon as its length is
/// known; one with fewer bytes than it declares waits for the missing ones.
pub proof fn law_declared_length_is_kept_to(first: u8, payload: Seq<u8>, k: int, big: Seq<u8>)
    requires
        first < 16,
        payload.len() <= 16_777_216,
        0 <= k < payload.len(),
        big.len() >= 10,
        big[1] == 127 || big[1] == 255,
        big[2] > 0 || big[3] > 0 || big[4] > 0 || big[5] > 0 || big[6] > 1 || (big[6] == 1 && (big[7]
            > 0 || big[8] > 0 || big[9] > 0)),
    ensures
        ({
            let whole = server_frame(true, first, payload);
            frame_step(whole.take(whole.len() - payload.len() + k)) == StepView::Need(
                (payload.len() - k) as nat,
            )
        }),
        frame_step(big) is TooLarge,
{
    let whole = server_frame(true, first, payload);
    let p = whole.take(whole.len() - payload.len() + k);
    let n = payload.len();
    lemma_server_frame(true, first, payload, seq![]);
    assert(whole + Seq::<u8>::empty() =~= whole);
    assert(p[1] == whole[1]);
    let head = whole.len() - n;
    if n >= 126 {
        assert(p.subrange(2, head) =~= whole.subrange(2, head));
    }
    lemma_plain_length_bits(127);
    assert(255u8 & 0x7f == 127 && 255u8 & 0x80 != 0) by (bit_vector);
    let ext = big.subrange(2, 10);
    lemma_top_digits(ext);
}

proof fn lemma_top_digits(e: Seq<u8>)
    requires
        e.len() == 8,
    ensures
        be_value(e) == e[0] * 0x100_0000_0000_0000 + e[1] * 0x1_0000_0000_0000 + e[2]
            * 0x100_0000_0000 + e[3] * 0x1_0000_0000 + e[4] * 0x100_0000 + e[5] * 0x1_0000 + e[6]
            * 0x100 + e[7],
{
    reveal_with_fuel(be_value, 9);
}

/// What is written stands where a server looks for it: FIN and opcode, the mask bit with
/// the length, the mask before the payload, and each byte of the payload under the byte
/// of the mask that its place modulo four selects.
pub proof fn law_written_frame_is_laid_out(opcode: u8, payload: Seq<u8>, mask: Seq<u8>)
    requires
        opcode < 16,
        mask.len() == 4,
        payload.len() <= 16_777_216,
    ensures
        ({
            let b = client_frame(opcode, payload, mask);
            let n = payload.len();
            let head: int = if n < 126 {
                2
            } else if n < 65536 {
                4
            } else {
                10
            };
            &&& b.len() == head + 4 + n
            &&& b[0] == 128 + opcode
            &&& n < 126 ==> b[1] == 128 + n
            &&& 126 <= n < 65536 ==> b[1] == 254 && b[2] * 256 + b[3] == n
            &&& n >= 65536 ==> b[1] == 255 && b[2] == 0 && b[3] == 0 && b[4] == 0 && b[5] == 0
                && b[6] * 0x100_0000 + b[7] * 0x1_0000 + b[8] * 0x100 + b[9] == n
            &&& forall|i: int| 0 <= i < 4 ==> #[trigger] mask[i] == b[head + i]
            &&& forall|i: int|
                0 <= i < n ==> b[head + 4 + i] == #[trigger] payload[i] ^ mask[i % 4]
        }),
{
    let b = client_frame(opcode, payload, mask);
    let n = payload.len();
    lemma_first_bits(opcode);
    crate::bytes::law_byte_orders(n as u16, 0, n as u64, seq![]);
    assert(length_field(n).len() == if n < 126 {
        1int
    } else if n < 65536 {
        3
    } else {
        9
    });
}

/// A ping is answered with its own payload, a close ends the session, and an opcode that
/// the protocol does not define is told apart.
pub proof fn law_control_frames_are_told_apart(i: InboxView, f: FrameView)
    ensures
        f.opcode == 9 ==> frame_received(i, f).1 == ReceivedView::Ping(f.payload),
        f.opcode == 10 ==> frame_received(i, f).1 is Skip,
        f.opcode == 8 ==> frame_received(i, f) == (i, ReceivedView::Closed),
        3 <= f.opcode <= 7 || f.opcode >= 11 ==> frame_received(i, f) == (
            i,
            ReceivedView::UnknownOpcode,
        ),
        frame_received(i, f).1 is Text ==> f.fin && f.opcode <= 1,
        !f.fin && f.opcode <= 2 ==> frame_received(i, f).1 is Skip,
{
}

/// A message in one frame is delivered where it is text, whatever was left unfinished
/// before, and dropped where it is binary; a binary message is dropped in parts, too.
pub proof fn law_only_text_is_delivered(i: InboxView, payload: Seq<u8>, more: Seq<u8>)
    ensures
        frame_received(i, FrameView { fin: true, opcode: 1, payload }).1 == ReceivedView::Text(
            payload,
        ),
        frame_received(i, FrameView { fin: true, opcode: 2, payload }).1 is Skip,
        frame_received(
            frame_received(i, FrameView { fin: false, opcode: 2, payload }).0,
            FrameView { fin: true, opcode: 0, payload: more },
        ).1 is Skip,
        frame_received(
            frame_received(i, FrameView { fin: false, opcode: 1, payload }).0,
            FrameView { fin: true, opcode: 0, payload: more },
        ).1 == ReceivedView::Text(payload + more),
        frame_received(i, FrameView { fin: true, opcode: 1, payload }).0.msg.len() == 0,
{
}

/// A response head is read up to its blank line and no further, and given up behind eight
/// kibibytes without one.
pub proof fn law_head_ends_at_blank_line(head: Seq<u8>)
    ensures
        head_step_of(head + seq![13u8, 10, 13, 10]) == HeadStep::Complete,
        head_step_of(head) == HeadStep::Complete ==> head.len() >= 4 && head[head.len() - 4] == 13
            && head[head.len() - 3] == 10 && head[head.len() - 2] == 13 && head[head.len() - 1]
            == 10,
        head_step_of(head) == HeadStep::TooLarge ==> head.len() >= 8193,
        head.len() <= 8192 ==> head_step_of(head) != HeadStep::TooLarge,
        head.len() > 8192 ==> head_step_of(head) != HeadStep::More,
{
    let h = head + seq![13u8, 10, 13, 10];
    assert(h.skip(h.len() - 4) =~= seq![13u8, 10, 13, 10]);
    if ends_head(head) {
        let t = head.skip(head.len() - 4);
        assert(t[0] == 13 && t[1] == 10 && t[2] == 13 && t[3] == 10);
    }
}

/// The bytes of an ASCII text.
pub open spec fn ascii(s: Seq<char>) -> Seq<u8> {
    s.map_values(|c: char| c as u8)
}

/// A head is accepted exactly when it starts with `HTTP/1.1 101`.
pub proof fn law_only_switching_protocols_is_accepted(head: Seq<u8>)
    ensures
        upgraded(head) <==> head.len() >= 12 && head.take(12) == ascii("HTTP/1.1 101"@),
{
    reveal_strlit("HTTP/1.1 101");
    let want = ascii("HTTP/1.1 101"@);
    assert(want =~= switching_protocols());
    head.index_of_first_ensures(13u8);
    let line = status_line(head);
    if upgraded(head) {
        assert(line.subrange(0, 12) =~= want);
        assert(head.take(12) =~= want);
    }
    if head.len() >= 12 && head.take(12) == want {
        assert forall|j: int| 0 <= j < 12 implies head[j] != 13 by {
            assert(head[j] == head.take(12)[j]);
            assert(want[j] != 13);
        }
        assert(line.len() >= 12);
        assert(line.subrange(0, 12) =~= want);
    }
}

/// A header line of a request.
pub open spec fn header(name: Seq<char>, value: Seq<char>) -> Seq<char> {
    name + ": "@ + value + "\r\n"@
}

/// The upgrade request is a GET of the WebSocket path with the token and the client type
/// in its query, and with the headers that RFC 6455 asks for.
pub proof fn law_upgrade_request_is_http(
    token: Seq<char>,
    client_type: Seq<char>,
    hostport: Seq<char>,
    key: Seq<char>,
)
    ensures
        upgrade_text(token, client_type, hostport, key) == "GET "@ + ("/api/v1/ws"@ + "?token="@
            + token + "&clientType="@ + client_type) + " HTTP/1.1\r\n"@ + header("Host"@, hostport)
            + header("Upgrade"@, "websocket"@) + header("Connection"@, "Upgrade"@) + header(
            "Sec-WebSocket-Key"@,
            key,
        ) + header("Sec-WebSocket-Version"@, "13"@) + "\r\n"@,
{
    reveal_strlit("GET /api/v1/ws?token=");
    reveal_strlit("GET ");
    reveal_strlit("/api/v1/ws");
    reveal_strlit("?token=");
    reveal_strlit(" HTTP/1.1\r\nHost: ");
    reveal_strlit(" HTTP/1.1\r\n");
    reveal_strlit("Host");
    reveal_strlit(": ");
    reveal_strlit("\r\n");
    reveal_strlit("\r\nUpgrade: websocket\r\nConnection: Upgrade\r\nSec-WebSocket-Key: ");
    reveal_strlit("Upgrade");
    reveal_strlit("websocket");
    reveal_strlit("Connection");
    reveal_strlit("Sec-WebSocket-Key");
    reveal_strlit("\r\nSec-WebSocket-Version: 13\r\n\r\n");
    reveal_strlit("Sec-WebSocket-Version");
    reveal_strlit("13");
    assert("GET /api/v1/ws?token="@ =~= "GET "@ + "/api/v1/ws"@ + "?token="@);
    assert(" HTTP/1.1\r\nHost: "@ =~= " HTTP/1.1\r\n"@ + "Host"@ + ": "@);
    assert("\r\nUpgrade: websocket\r\nConnection: Upgrade\r\nSec-WebSocket-Key: "@ =~= "\r\n"@
        + header("Upgrade"@, "websocket"@) + header("Connection"@, "Upgrade"@)
        + "Sec-WebSocket-Key"@ + ": "@);
    assert("\r\nSec-WebSocket-Version: 13\r\n\r\n"@ =~= "\r\n"@ + header(
        "Sec-WebSocket-Version"@,
        "13"@,
    ) + "\r\n"@);
    assert(upgrade_text(token, client_type, hostport, key) =~= "GET "@ + ("/api/v1/ws"@ + "?token="@
        + token + "&clientType="@ + client_type) + " HTTP/1.1\r\n"@ + header("Host"@, hostport)
        + header("Upgrade"@, "websocket"@) + header("Connection"@, "Upgrade"@) + header(
        "Sec-WebSocket-Key"@,
        key,
    ) + header("Sec-WebSocket-Version"@, "13"@) + "\r\n"@);
}

/// Nothing of a message is left once its last frame has come, whether it was delivered or
/// not, and a frame that is not the last delivers nothing.
pub proof fn law_finished_message_is_forgotten(i: InboxView, f: FrameView)
    requires
        f.opcode <= 2,
    ensures
        f.fin ==> frame_received(i, f).0.msg.len() == 0,
        !f.fin ==> frame_received(i, f).1 is Skip,
        !f.fin && f.opcode > 0 ==> frame_received(i, f).0.msg == f.payload,
        !f.fin && f.opcode == 0 ==> frame_received(i, f).0.msg == i.msg + f.payload,
        !f.fin && f.opcode == 0 ==> frame_received(i, f).0.is_text == i.is_text,
{
}

/// A message that only continues is no text where none was begun: neither at first, nor
/// after a text or a binary message that has ended.
pub proof fn law_continuation_alone_is_no_text(i: InboxView, payload: Seq<u8>, more: Seq<u8>)
    ensures
        ({
            let lone = FrameView { fin: true, opcode: 0, payload: more };
            let text = FrameView { fin: true, opcode: 1, payload };
            let binary = FrameView { fin: true, opcode: 2, payload };
            &&& frame_received(empty_inbox(), lone).1 is Skip
            &&& frame_received(frame_received(i, text).0, lone).1 is Skip
            &&& frame_received(frame_received(i, binary).0, lone).1 is Skip
            &&& empty_inbox().msg.len() == 0
        }),
{
}

} // verus!
