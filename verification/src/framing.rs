//! Application-layer framing above the physical packet.
//!
//! Every frame names its sender **and** its intended recipient, so a receiver
//! can tell "this is for me, and I know who it is from" with no out-of-band
//! state. That is what makes stop-and-wait ARQ workable on a shared acoustic
//! channel: an ACK is trusted only when it carries the peer id we are talking to.
//!
//! Byte layouts are big-endian:
//!
//! ```text
//! data : type(1) src(2) dst(2) msg_id(2) frag_idx(2) frag_total(2)  = 11 B
//! hello: type(1) src(2) dst(2)                                      =  5 B
//! ack  : type(1) src(2) dst(2) msg_id(2) frag_idx(2)                =  9 B
//! ```
use crate::text;
use vstd::prelude::*;
use vstd::slice::slice_subrange;
use vstd::slice::slice_to_vec;
use vstd::utf8;

verus! {

pub const FRAG_HDR_LEN: usize = 11;

pub const HELLO_HDR_LEN: usize = 5;

pub const ACK_HDR_LEN: usize = 9;

pub const T_TEXT: u8 = 0x01;

pub const T_FILE: u8 = 0x02;

/// Explicit discovery. Not used before a send, since the first data fragment
/// already introduces us, but kept for "is anyone out there?" without a transfer.
pub const T_HELLO: u8 = 0x10;

pub const T_HELLO_ACK: u8 = 0x11;

pub const T_ACK: u8 = 0x12;

/// High bit of the type byte: "acknowledge this frame".
///
/// A data frame that asks to be acked *is* the introduction: it already carries
/// our id, and the ack carries the peer's. A separate hello round trip before
/// every message would double the air time of a short one to learn nothing new.
pub const ACK_REQ: u8 = 0x80;

pub const TYPE_MASK: u8 = 0x7F;

/// The dst everyone accepts and, absent [`ACK_REQ`], nobody acknowledges.
pub const BROADCAST: u16 = 0x0000;

/// Bytes per fragment. Small keeps frames short and cheap to retry.
pub const FRAG_PAYLOAD: usize = 48;

pub type DeviceId = u16;

#[derive(Clone, Copy, Debug, PartialEq, Eq, Structural)]
pub struct FragHeader {
    pub kind: u8,
    pub ack_req: bool,
    pub src: DeviceId,
    pub dst: DeviceId,
    pub msg_id: u16,
    pub frag_idx: u16,
    pub frag_total: u16,
}

#[derive(Clone, Copy, Debug, PartialEq, Eq, Structural)]
pub struct CtrlFrame {
    pub kind: u8,
    pub src: DeviceId,
    pub dst: DeviceId,
    pub msg_id: u16,
    pub frag_idx: u16,
}

/// A decoded frame, dispatched by its leading type byte.
#[derive(Clone, Debug, PartialEq, Eq)]
pub enum Frame {
    Data { hdr: FragHeader, payload: Vec<u8> },
    Ctrl(CtrlFrame),
}

/// A frame with its payload as a sequence.
#[verifier::ext_equal]
pub enum FrameView {
    Data { hdr: FragHeader, payload: Seq<u8> },
    Ctrl(CtrlFrame),
}

impl View for Frame {
    type V = FrameView;

    open spec fn view(&self) -> FrameView {
        match *self {
            Frame::Data { hdr, payload } => FrameView::Data { hdr, payload: payload@ },
            Frame::Ctrl(c) => FrameView::Ctrl(c),
        }
    }
}

// --------------------------------------------------------------------------- //
// Big-endian numbers
// --------------------------------------------------------------------------- //
/// The two bytes of `n`, high byte first.
pub open spec fn be16(n: u16) -> Seq<u8> {
    seq![(n / 256) as u8, (n % 256) as u8]
}

/// The number that two bytes spell, high byte first.
pub open spec fn be16_at(b: Seq<u8>, i: int) -> u16 {
    (256 * b[i] + b[i + 1]) as u16
}

/// The four bytes of `n`, high byte first.
pub open spec fn be32(n: u32) -> Seq<u8> {
    seq![
        (n / 0x100_0000) as u8,
        (n / 0x1_0000 % 256) as u8,
        (n / 0x100 % 256) as u8,
        (n % 256) as u8,
    ]
}

/// The number that four bytes spell, high byte first.
pub open spec fn be32_at(b: Seq<u8>, i: int) -> u32 {
    (0x100_0000 * b[i] + 0x1_0000 * b[i + 1] + 0x100 * b[i + 2] + b[i + 3]) as u32
}

pub fn push_be16(out: &mut Vec<u8>, n: u16)
    ensures
        final(out)@ == old(out)@ + be16(n),
{
    out.push((n / 256) as u8);
    out.push((n % 256) as u8);
    assert(out@ =~= old(out)@ + be16(n));
}

pub fn read_be16(b: &[u8], i: usize) -> (n: u16)
    requires
        i + 1 < b@.len(),
    ensures
        n == be16_at(b@, i as int),
{
    256 * b[i] as u16 + b[i + 1] as u16
}

// --------------------------------------------------------------------------- //
// Frames
// --------------------------------------------------------------------------- //
/// The type byte of a data frame: the kind in the low seven bits, and the ack
/// request on top.
pub open spec fn type_byte(kind: u8, ack_req: bool) -> u8 {
    (kind % 128 + if ack_req {
        128int
    } else {
        0
    }) as u8
}

impl FragHeader {
    /// The header's bytes.
    pub open spec fn bytes(self) -> Seq<u8> {
        seq![type_byte(self.kind, self.ack_req)] + be16(self.src) + be16(self.dst) + be16(
            self.msg_id,
        ) + be16(self.frag_idx) + be16(self.frag_total)
    }

    /// The frame that carries `payload` behind this header.
    pub fn encode(&self, payload: &[u8]) -> (out: Vec<u8>)
        ensures
            out@ == self.bytes() + payload@,
    {
        let mut out: Vec<u8> = Vec::new();
        let kind: u8 = self.kind;
        let flag: u8 = if self.ack_req {
            ACK_REQ
        } else {
            0
        };
        let lead: u8 = (kind & TYPE_MASK) | flag;
        assert(((kind & 0x7F) | 0x80) == kind % 128 + 128 && ((kind & 0x7F) | 0) == kind % 128)
            by (bit_vector);
        out.push(lead);
        push_be16(&mut out, self.src);
        push_be16(&mut out, self.dst);
        push_be16(&mut out, self.msg_id);
        push_be16(&mut out, self.frag_idx);
        push_be16(&mut out, self.frag_total);
        assert(out@ =~= self.bytes());
        out.extend_from_slice(payload);
        out
    }
}

/// The bytes of a hello, or of the answer to one.
pub open spec fn hello_bytes(kind: u8, src: DeviceId, dst: DeviceId) -> Seq<u8> {
    seq![kind] + be16(src) + be16(dst)
}

/// The bytes of an acknowledgement.
pub open spec fn ack_bytes(src: DeviceId, dst: DeviceId, msg_id: u16, frag_idx: u16) -> Seq<u8> {
    seq![T_ACK] + be16(src) + be16(dst) + be16(msg_id) + be16(frag_idx)
}

pub fn encode_hello(kind: u8, src: DeviceId, dst: DeviceId) -> (out: Vec<u8>)
    ensures
        out@ == hello_bytes(kind, src, dst),
{
    let mut out: Vec<u8> = Vec::with_capacity(HELLO_HDR_LEN);
    out.push(kind);
    push_be16(&mut out, src);
    push_be16(&mut out, dst);
    assert(out@ =~= hello_bytes(kind, src, dst));
    out
}

pub fn encode_ack(src: DeviceId, dst: DeviceId, msg_id: u16, frag_idx: u16) -> (out: Vec<u8>)
    ensures
        out@ == ack_bytes(src, dst, msg_id, frag_idx),
{
    let mut out: Vec<u8> = Vec::with_capacity(ACK_HDR_LEN);
    out.push(T_ACK);
    push_be16(&mut out, src);
    push_be16(&mut out, dst);
    push_be16(&mut out, msg_id);
    push_be16(&mut out, frag_idx);
    assert(out@ =~= ack_bytes(src, dst, msg_id, frag_idx));
    out
}

/// The header that a data frame starts with.
pub open spec fn header_at(payload: Seq<u8>) -> FragHeader {
    FragHeader {
        kind: payload[0] % 128,
        ack_req: payload[0] >= 128,
        src: be16_at(payload, 1),
        dst: be16_at(payload, 3),
        msg_id: be16_at(payload, 5),
        frag_idx: be16_at(payload, 7),
        frag_total: be16_at(payload, 9),
    }
}

/// What a packet payload says, or nothing where it is too short for its type or
/// numbers its fragments wrongly.
#[verifier::opaque]
pub open spec fn parsed(payload: Seq<u8>) -> Option<FrameView> {
    if payload.len() == 0 {
        None
    } else if payload[0] == T_HELLO || payload[0] == T_HELLO_ACK {
        if payload.len() < HELLO_HDR_LEN {
            None
        } else {
            Some(
                FrameView::Ctrl(
                    CtrlFrame {
                        kind: payload[0],
                        src: be16_at(payload, 1),
                        dst: be16_at(payload, 3),
                        msg_id: 0,
                        frag_idx: 0,
                    },
                ),
            )
        }
    } else if payload[0] == T_ACK {
        if payload.len() < ACK_HDR_LEN {
            None
        } else {
            Some(
                FrameView::Ctrl(
                    CtrlFrame {
                        kind: payload[0],
                        src: be16_at(payload, 1),
                        dst: be16_at(payload, 3),
                        msg_id: be16_at(payload, 5),
                        frag_idx: be16_at(payload, 7),
                    },
                ),
            )
        }
    } else if payload.len() < FRAG_HDR_LEN {
        None
    } else {
        let hdr = header_at(payload);
        if hdr.frag_total == 0 || hdr.frag_idx >= hdr.frag_total {
            None
        } else {
            Some(FrameView::Data { hdr, payload: payload.skip(FRAG_HDR_LEN as int) })
        }
    }
}

/// An optional frame with its payload as a sequence.
pub open spec fn frame_view(f: Option<Frame>) -> Option<FrameView> {
    match f {
        Some(f) => Some(f@),
        None => None,
    }
}

/// Parse one decoded packet payload. `None` means "malformed, ignore it":
/// a frame that survived the CRC but is too short to be any known type.
pub fn parse(payload: &[u8]) -> (frame: Option<Frame>)
    ensures
        frame_view(frame) == parsed(payload@),
{
    reveal(parsed);
    if payload.len() == 0 {
        return None;
    }
    let kind: u8 = payload[0];
    if kind == T_HELLO || kind == T_HELLO_ACK {
        if payload.len() < HELLO_HDR_LEN {
            return None;
        }
        return Some(
            Frame::Ctrl(
                CtrlFrame {
                    kind,
                    src: read_be16(payload, 1),
                    dst: read_be16(payload, 3),
                    msg_id: 0,
                    frag_idx: 0,
                },
            ),
        );
    }
    if kind == T_ACK {
        if payload.len() < ACK_HDR_LEN {
            return None;
        }
        return Some(
            Frame::Ctrl(
                CtrlFrame {
                    kind,
                    src: read_be16(payload, 1),
                    dst: read_be16(payload, 3),
                    msg_id: read_be16(payload, 5),
                    frag_idx: read_be16(payload, 7),
                },
            ),
        );
    }
    if payload.len() < FRAG_HDR_LEN {
        return None;
    }
    assert(kind & 0x7F == kind % 128 && (kind & 0x80 != 0 <==> kind >= 128)) by (bit_vector);
    let hdr = FragHeader {
        kind: kind & TYPE_MASK,
        ack_req: kind & ACK_REQ != 0,
        src: read_be16(payload, 1),
        dst: read_be16(payload, 3),
        msg_id: read_be16(payload, 5),
        frag_idx: read_be16(payload, 7),
        frag_total: read_be16(payload, 9),
    };
    if hdr.frag_total == 0 || hdr.frag_idx >= hdr.frag_total {
        return None;
    }
    let body = slice_to_vec(slice_subrange(payload, FRAG_HDR_LEN, payload.len()));
    assert(body@ =~= payload@.skip(FRAG_HDR_LEN as int));
    Some(Frame::Data { hdr, payload: body })
}

proof fn lemma_be16_read_back(n: u16)
    ensures
        256 * be16(n)[0] + be16(n)[1] == n,
{
}

/// A data frame gives back its header and its payload, the ack flag included.
///
/// A kind above seven bits does not fit the type byte, a fragment index past the
/// total is refused on the way in, and a kind that is a control type reads as
/// that control frame where no ack is asked for.
pub proof fn data_frames_round_trip(hdr: FragHeader, payload: Seq<u8>)
    requires
        hdr.kind <= TYPE_MASK,
        hdr.frag_idx < hdr.frag_total,
        hdr.ack_req || (hdr.kind != T_HELLO && hdr.kind != T_HELLO_ACK && hdr.kind != T_ACK),
    ensures
        parsed(hdr.bytes() + payload) == Some(FrameView::Data { hdr, payload }),
{
    reveal(parsed);
    let wire = hdr.bytes() + payload;
    assert(wire.skip(FRAG_HDR_LEN as int) =~= payload);
    lemma_be16_read_back(hdr.src);
    lemma_be16_read_back(hdr.dst);
    lemma_be16_read_back(hdr.msg_id);
    lemma_be16_read_back(hdr.frag_idx);
    lemma_be16_read_back(hdr.frag_total);
    assert(wire[0] == type_byte(hdr.kind, hdr.ack_req));
    assert(header_at(wire) == hdr);
}

/// A fragment that is accepted has an index below its total.
pub proof fn accepted_fragments_are_numbered(payload: Seq<u8>)
    ensures
        parsed(payload) matches Some(FrameView::Data { hdr, .. }) ==> hdr.frag_idx < hdr.frag_total,
{
    reveal(parsed);
}

/// A data header that no receiver would accept is refused, whatever follows it.
pub proof fn nonsense_fragment_numbers_are_refused(hdr: FragHeader, payload: Seq<u8>)
    requires
        hdr.kind <= TYPE_MASK,
        hdr.frag_idx >= hdr.frag_total,
        hdr.ack_req || (hdr.kind != T_HELLO && hdr.kind != T_HELLO_ACK && hdr.kind != T_ACK),
    ensures
        parsed(hdr.bytes() + payload) is None,
{
    reveal(parsed);
    let wire = hdr.bytes() + payload;
    lemma_be16_read_back(hdr.frag_idx);
    lemma_be16_read_back(hdr.frag_total);
    assert(wire[0] == type_byte(hdr.kind, hdr.ack_req));
    assert(header_at(wire).frag_idx == hdr.frag_idx);
    assert(header_at(wire).frag_total == hdr.frag_total);
}

/// An acknowledgement gives back every field.
pub proof fn ack_frames_round_trip(src: DeviceId, dst: DeviceId, msg_id: u16, frag_idx: u16)
    ensures
        parsed(ack_bytes(src, dst, msg_id, frag_idx)) == Some(
            FrameView::Ctrl((CtrlFrame { kind: T_ACK, src, dst, msg_id, frag_idx })),
        ),
{
    reveal(parsed);
    lemma_be16_read_back(src);
    lemma_be16_read_back(dst);
    lemma_be16_read_back(msg_id);
    lemma_be16_read_back(frag_idx);
}

/// A hello, or the answer to one, gives back its kind and both ids.
pub proof fn hello_frames_round_trip(kind: u8, src: DeviceId, dst: DeviceId)
    requires
        kind == T_HELLO || kind == T_HELLO_ACK,
    ensures
        parsed(hello_bytes(kind, src, dst)) == Some(
            FrameView::Ctrl((CtrlFrame { kind, src, dst, msg_id: 0, frag_idx: 0 })),
        ),
{
    reveal(parsed);
    lemma_be16_read_back(src);
    lemma_be16_read_back(dst);
}

// --------------------------------------------------------------------------- //
// File transfer metadata, prefixed to the first fragment of a T_FILE message:
//   name_len(1) name(name_len) size(4)
// --------------------------------------------------------------------------- //
#[derive(Clone, Debug, PartialEq, Eq)]
pub struct FileMeta {
    pub name: String,
    pub size: u32,
}

/// The metadata of a file whose name has these bytes. A name longer than 255
/// bytes is cut there.
pub open spec fn meta_bytes(name: Seq<u8>, size: u32) -> Seq<u8> {
    let kept = if name.len() < 255 {
        name
    } else {
        name.take(255)
    };
    seq![kept.len() as u8] + kept + be32(size)
}

pub fn encode_file_meta(name: &str, size: u32) -> (out: Vec<u8>)
    ensures
        out@ == meta_bytes(utf8::encode_utf8(name@), size),
{
    let name = name.as_bytes();
    let n: usize = if name.len() < 255 {
        name.len()
    } else {
        255
    };
    let mut out: Vec<u8> = Vec::with_capacity(5 + n);
    out.push(n as u8);
    out.extend_from_slice(slice_subrange(name, 0, n));
    out.push((size / 0x100_0000) as u8);
    out.push((size / 0x1_0000 % 256) as u8);
    out.push((size / 0x100 % 256) as u8);
    out.push((size % 256) as u8);
    assert(out@ =~= meta_bytes(name@, size));
    out
}

/// The three parts of a file message.
#[verifier::ext_equal]
pub struct FileParts {
    pub name: Seq<u8>,
    pub size: u32,
    pub data: Seq<u8>,
}

/// A reassembled file message taken apart; nothing where it is too short to hold
/// its own metadata. The contents stop at the size the metadata gives, or where
/// the message does.
pub open spec fn file_parts(blob: Seq<u8>) -> Option<FileParts> {
    if blob.len() == 0 || blob.len() < 5 + blob[0] {
        None
    } else {
        let n = blob[0] as int;
        let size = be32_at(blob, 1 + n);
        let rest = blob.skip(5 + n);
        Some(
            FileParts {
                name: blob.subrange(1, 1 + n),
                size,
                data: if size < rest.len() {
                    rest.take(size as int)
                } else {
                    rest
                },
            },
        )
    }
}

/// Split a reassembled T_FILE blob into its metadata and its contents.
pub fn decode_file_blob(blob: &[u8]) -> (r: Option<(FileMeta, Vec<u8>)>)
    ensures
        match (r, file_parts(blob@)) {
            (Some((meta, data)), Some(parts)) => {
                &&& meta.name@ == text::lossy(parts.name)
                &&& meta.size == parts.size
                &&& data@ == parts.data
            },
            (None, None) => true,
            _ => false,
        },
{
    if blob.len() == 0 {
        return None;
    }
    let n: usize = blob[0] as usize;
    if blob.len() < 1 + n + 4 {
        return None;
    }
    let raw = slice_subrange(blob, 1, 1 + n);
    assert(raw@ =~= blob@.subrange(1, 1 + n));
    let name = text::from_utf8_lossy(raw);
    let size: u32 = 0x100_0000 * blob[1 + n] as u32 + 0x1_0000 * blob[2 + n] as u32 + 0x100 * blob[3
        + n] as u32 + blob[4 + n] as u32;
    let start: usize = 5 + n;
    let rest: usize = blob.len() - start;
    let end: usize = if (size as u64) < rest as u64 {
        start + size as usize
    } else {
        blob.len()
    };
    let data = slice_to_vec(slice_subrange(blob, start, end));
    assert(data@ =~= file_parts(blob@).unwrap().data);
    Some((FileMeta { name, size }, data))
}

proof fn lemma_be32_read_back(n: u32)
    ensures
        0x100_0000 * be32(n)[0] + 0x1_0000 * be32(n)[1] + 0x100 * be32(n)[2] + be32(n)[3] == n,
{
    let high = n / 0x1_0000;
    let low = n % 0x1_0000;
    assert(n == 0x1_0000 * high + low);
    assert(n / 0x100_0000 == high / 0x100);
    assert(n / 0x100 % 256 == low / 0x100);
    assert(n % 256 == low % 0x100);
}

proof fn lemma_file_parts(raw: Seq<u8>, size: u32, data: Seq<u8>)
    requires
        raw.len() <= 255,
    ensures
        file_parts(meta_bytes(raw, size) + data) == Some(
            FileParts {
                name: raw,
                size,
                data: if size < data.len() {
                    data.take(size as int)
                } else {
                    data
                },
            },
        ),
{
    let n = raw.len() as int;
    let meta = meta_bytes(raw, size);
    let blob = meta + data;
    assert(raw.take(n) =~= raw);
    assert(meta =~= seq![n as u8] + raw + be32(size));
    assert(meta.len() == n + 5);
    assert(blob[0] == n);
    assert(blob.subrange(1, 1 + n) =~= raw);
    assert(blob.skip(5 + n) =~= data);
    assert(be32_at(blob, 1 + n) == size) by {
        lemma_be32_read_back(size);
        assert(blob[1 + n] == be32(size)[0]);
        assert(blob[2 + n] == be32(size)[1]);
        assert(blob[3 + n] == be32(size)[2]);
        assert(blob[4 + n] == be32(size)[3]);
    }
}

/// A file message gives back the file's name, its size and its contents. The
/// contents survive whole exactly where the size in the metadata covers them.
pub proof fn file_messages_round_trip(name: Seq<char>, size: u32, data: Seq<u8>)
    requires
        utf8::encode_utf8(name).len() <= 255,
    ensures
        ({
            let blob = meta_bytes(utf8::encode_utf8(name), size) + data;
            &&& file_parts(blob) matches Some(parts)
            &&& text::lossy(parts.name) == name
            &&& parts.size == size
            &&& data.len() <= size ==> parts.data == data
            &&& data.len() > size ==> parts.data == data.take(size as int)
        }),
{
    let raw = utf8::encode_utf8(name);
    lemma_file_parts(raw, size, data);
    utf8::encode_utf8_valid_utf8(name);
    utf8::encode_utf8_decode_utf8(name);
}

// --------------------------------------------------------------------------- //
// Where every byte stands
// --------------------------------------------------------------------------- //
/// The two bytes at `i` spell `n`, high byte first.
pub open spec fn spells(b: Seq<u8>, i: int, n: u16) -> bool {
    256 * b[i] + b[i + 1] == n
}

/// A header takes eleven bytes: the type, with the ack request as its highest bit, and
/// then the sender, the recipient, the message, the fragment and how many there are.
pub proof fn data_headers_are_laid_out(hdr: FragHeader)
    ensures
        ({
            let b = hdr.bytes();
            &&& b.len() == 11
            &&& b[0] >= 128 <==> hdr.ack_req
            &&& b[0] % 128 == hdr.kind % 128
            &&& spells(b, 1, hdr.src)
            &&& spells(b, 3, hdr.dst)
            &&& spells(b, 5, hdr.msg_id)
            &&& spells(b, 7, hdr.frag_idx)
            &&& spells(b, 9, hdr.frag_total)
        }),
{
}

/// Control frames take five bytes, an acknowledgement nine: the type, the sender and the
/// recipient, and behind an acknowledgement the message and the fragment.
pub proof fn control_frames_are_laid_out(
    kind: u8,
    src: DeviceId,
    dst: DeviceId,
    msg_id: u16,
    frag_idx: u16,
)
    ensures
        ({
            let (h, a) = (hello_bytes(kind, src, dst), ack_bytes(src, dst, msg_id, frag_idx));
            &&& h.len() == 5
            &&& h[0] == kind
            &&& spells(h, 1, src) && spells(h, 3, dst)
            &&& a.len() == 9
            &&& a[0] == 0x12
            &&& spells(a, 1, src) && spells(a, 3, dst)
            &&& spells(a, 5, msg_id) && spells(a, 7, frag_idx)
        }),
{
}

/// What is read from a payload is what stands there. The first byte decides: a hello and
/// its answer, an acknowledgement, and everything else a fragment, whose payload is all
/// that follows its header.
pub proof fn frames_say_what_stands_there(p: Seq<u8>)
    ensures
        parsed(p) matches Some(FrameView::Ctrl(c)) ==> {
            &&& c.kind == p[0]
            &&& spells(p, 1, c.src) && spells(p, 3, c.dst)
            &&& p[0] == 0x12 ==> spells(p, 5, c.msg_id) && spells(p, 7, c.frag_idx)
            &&& p[0] != 0x12 ==> c.msg_id == 0 && c.frag_idx == 0
            &&& p[0] == 0x10 || p[0] == 0x11 || p[0] == 0x12
        },
        parsed(p) matches Some(FrameView::Data { hdr, payload }) ==> {
            &&& p == hdr.bytes() + payload
            &&& p[0] != 0x10 && p[0] != 0x11 && p[0] != 0x12
            &&& hdr.kind <= 127
            &&& hdr.frag_idx < hdr.frag_total
        },
{
    reveal(parsed);
    if let Some(FrameView::Data { hdr, payload }) = parsed(p) {
        assert(hdr.bytes() + payload =~= p);
    }
}

/// A payload is refused exactly where it is empty, too short for its type, or a fragment
/// whose number is not below its total.
pub proof fn short_and_misnumbered_frames_are_refused(p: Seq<u8>)
    ensures
        parsed(p) is None <==> {
            ||| p.len() == 0
            ||| (p[0] == 0x10 || p[0] == 0x11) && p.len() < 5
            ||| p[0] == 0x12 && p.len() < 9
            ||| p[0] != 0x10 && p[0] != 0x11 && p[0] != 0x12 && (p.len() < 11 || 256 * p[7] + p[8]
                >= 256 * p[9] + p[10])
        },
{
    reveal(parsed);
}

/// A file message is taken apart exactly where it holds the metadata it announces; then
/// it is its name, behind the length of it, its size, high byte first, and its contents,
/// of which no more count than the size says.
pub proof fn file_messages_say_what_stands_there(blob: Seq<u8>)
    ensures
        file_parts(blob) is None <==> blob.len() == 0 || blob.len() < 5 + blob[0],
        file_parts(blob) matches Some(f) ==> {
            let n = f.name.len() as int;
            &&& blob[0] == n
            &&& blob.subrange(1, 1 + n) == f.name
            &&& 0x100_0000 * blob[1 + n] + 0x1_0000 * blob[2 + n] + 0x100 * blob[3 + n] + blob[4
                + n] == f.size
            &&& f.data.len() <= f.size
            &&& f.data == blob.subrange(5 + n, 5 + n + f.data.len())
            &&& f.data.len() == f.size || 5 + n + f.data.len() == blob.len()
        },
{
    if let Some(f) = file_parts(blob) {
        let n = blob[0] as int;
        assert(f.data =~= blob.subrange(5 + n, 5 + n + f.data.len()));
    }
}

/// The metadata of a file holds its name, or the first 255 bytes of a longer one.
pub proof fn file_metadata_is_laid_out(name: Seq<u8>, size: u32)
    ensures
        ({
            let m = meta_bytes(name, size);
            let n = m[0] as int;
            &&& n == (if name.len() <= 255 {
                name.len() as int
            } else {
                255
            })
            &&& m.len() == 5 + n
            &&& m.subrange(1, 1 + n) == name.take(n)
            &&& 0x100_0000 * m[1 + n] + 0x1_0000 * m[2 + n] + 0x100 * m[3 + n] + m[4 + n] == size
        }),
{
    let m = meta_bytes(name, size);
    let n = m[0] as int;
    let kept = if name.len() < 255 {
        name
    } else {
        name.take(255)
    };
    assert(kept =~= name.take(n));
    assert(m.subrange(1, 1 + n) =~= name.take(n));
    lemma_be32_read_back(size);
    assert(m[1 + n] == be32(size)[0]);
    assert(m[2 + n] == be32(size)[1]);
    assert(m[3 + n] == be32(size)[2]);
    assert(m[4 + n] == be32(size)[3]);
}

} // verus!
