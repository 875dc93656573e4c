//! The BitTorrent peer wire protocol: handshake and message framing.
use vstd::prelude::*;
use crate::bytes::{append, array20_at, bytes_equal, copy_range};
use crate::hashing::{sha1, sha1_digest};
use crate::text::{decimal, push_decimal, push_str, string_of};

verus! {

pub const BLOCK_SIZE: u32 = 16384;

pub const HANDSHAKE_LEN: u8 = 19;

/// The bytes of `BitTorrent protocol`.
pub open spec fn protocol() -> Seq<u8> {
    seq![66u8, 105, 116, 84, 111, 114, 114, 101, 110, 116, 32, 112, 114, 111, 116, 111, 99, 111, 108]
}

fn protocol_bytes() -> (p: [u8; 19])
    ensures
        p@ == protocol(),
{
    let p: [u8; 19] = [66u8, 105, 116, 84, 111, 114, 114, 101, 110, 116, 32, 112, 114, 111, 116, 111, 99, 111, 108];
    assert(p@ =~= protocol());
    p
}

/// The four big-endian bytes of `x`.
pub open spec fn be32(x: u32) -> Seq<u8> {
    seq![(x >> 24u32) as u8, ((x >> 16u32) & 0xffu32) as u8, ((x >> 8u32) & 0xffu32) as u8, (x & 0xffu32) as u8]
}

/// The number whose big-endian bytes are `s[0..4]`.
pub open spec fn from_be32(s: Seq<u8>) -> u32 {
    ((s[0] as u32) << 24u32) | ((s[1] as u32) << 16u32) | ((s[2] as u32) << 8u32) | (s[3] as u32)
}

/// Four big-endian bytes read back as the number they were written from.
pub proof fn lemma_be32_roundtrip(x: u32)
    ensures
        from_be32(be32(x)) == x,
        be32(x).len() == 4,
{
    let b0 = (x >> 24u32) as u8;
    let b1 = ((x >> 16u32) & 0xffu32) as u8;
    let b2 = ((x >> 8u32) & 0xffu32) as u8;
    let b3 = (x & 0xffu32) as u8;
    assert(((b0 as u32) << 24u32) | ((b1 as u32) << 16u32) | ((b2 as u32) << 8u32) | (b3 as u32) == x) by (bit_vector)
        requires
            b0 == (x >> 24u32) as u8,
            b1 == ((x >> 16u32) & 0xffu32) as u8,
            b2 == ((x >> 8u32) & 0xffu32) as u8,
            b3 == (x & 0xffu32) as u8,
    ;
}

fn push_be32(buf: &mut Vec<u8>, x: u32)
    ensures
        final(buf)@ == old(buf)@ + be32(x),
{
    buf.push((x >> 24u32) as u8);
    buf.push(((x >> 16u32) & 0xffu32) as u8);
    buf.push(((x >> 8u32) & 0xffu32) as u8);
    buf.push((x & 0xffu32) as u8);
    assert(buf@ =~= old(buf)@ + be32(x));
}

fn read_be32(s: &[u8], at: usize) -> (x: u32)
    requires
        at + 4 <= s@.len(),
    ensures
        x == from_be32(s@.subrange(at as int, at + 4)),
{
    let ghost t = s@.subrange(at as int, at + 4);
    assert(t[0] == s@[at as int] && t[1] == s@[at + 1] && t[2] == s@[at + 2] && t[3] == s@[at + 3]);
    ((s[at] as u32) << 24u32) | ((s[at + 1] as u32) << 16u32) | ((s[at + 2] as u32) << 8u32) | (s[at + 3] as u32)
}

/// Why a peer message could not be encoded, decoded or read, or a handshake failed.
#[derive(Debug, Clone, PartialEq, Eq)]
pub enum PeerError {
    UnknownMessage,
    MessageTooLarge,
    EmptyMessage,
    HaveTooShort,
    BadRequestLength(usize),
    BadPieceLength(usize),
    BadCancelLength(usize),
    ShortHandshakeLength,
    BadProtocolLength(u8),
    ShortProtocol,
    BadProtocol,
    ShortReserved,
    ShortInfoHash,
    InfoHashMismatch,
    ShortPeerId,
    ShortMessageLength,
    ShortMessageBody,
    /// The block has another length than the one requested: the requested length
    /// and the one received.
    WrongBlockLength(u32, usize),
    /// The assembled piece has another SHA-1 than the torrent gives for it.
    HashMismatch(u32),
}

impl PeerError {
    pub open spec fn spec_message(self) -> Seq<char> {
        match self {
            PeerError::UnknownMessage => "cannot send unknown peer message"@,
            PeerError::MessageTooLarge => "peer message too large"@,
            PeerError::EmptyMessage => "empty peer message body"@,
            PeerError::HaveTooShort => "have message payload too short"@,
            PeerError::BadRequestLength(n) => "invalid request message length: "@ + decimal(n as nat),
            PeerError::BadPieceLength(n) => "invalid piece message length: "@ + decimal(n as nat),
            PeerError::BadCancelLength(n) => "invalid cancel message length: "@ + decimal(n as nat),
            PeerError::ShortHandshakeLength => "failed to read handshake length"@,
            PeerError::BadProtocolLength(n) => "unexpected handshake protocol length: "@ + decimal(n as nat),
            PeerError::ShortProtocol => "failed to read handshake protocol"@,
            PeerError::BadProtocol => "unexpected handshake protocol"@,
            PeerError::ShortReserved => "failed to read handshake reserved bytes"@,
            PeerError::ShortInfoHash => "failed to read handshake info hash"@,
            PeerError::InfoHashMismatch => "peer info hash does not match torrent"@,
            PeerError::ShortPeerId => "failed to read peer id"@,
            PeerError::ShortMessageLength => "failed to read message length"@,
            PeerError::ShortMessageBody => "failed to read message body"@,
            PeerError::WrongBlockLength(want, got) => "expected block of "@ + decimal(want as nat) + " bytes, got "@
                + decimal(got as nat),
            PeerError::HashMismatch(i) => "piece hash mismatch for piece "@ + decimal(i as nat),
        }
    }

    /// The error's message.
    pub fn to_string(&self) -> (s: String)
        ensures
            s@ == self.spec_message(),
    {
        match self {
            PeerError::UnknownMessage => string_of("cannot send unknown peer message"),
            PeerError::MessageTooLarge => string_of("peer message too large"),
            PeerError::EmptyMessage => string_of("empty peer message body"),
            PeerError::HaveTooShort => string_of("have message payload too short"),
            PeerError::BadRequestLength(n) => {
                let mut s = string_of("invalid request message length: ");
                push_decimal(&mut s, *n as u64);
                s
            },
            PeerError::BadPieceLength(n) => {
                let mut s = string_of("invalid piece message length: ");
                push_decimal(&mut s, *n as u64);
                s
            },
            PeerError::BadCancelLength(n) => {
                let mut s = string_of("invalid cancel message length: ");
                push_decimal(&mut s, *n as u64);
                s
            },
            PeerError::ShortHandshakeLength => string_of("failed to read handshake length"),
            PeerError::BadProtocolLength(n) => {
                let mut s = string_of("unexpected handshake protocol length: ");
                push_decimal(&mut s, *n as u64);
                s
            },
            PeerError::ShortProtocol => string_of("failed to read handshake protocol"),
            PeerError::BadProtocol => string_of("unexpected handshake protocol"),
            PeerError::ShortReserved => string_of("failed to read handshake reserved bytes"),
            PeerError::ShortInfoHash => string_of("failed to read handshake info hash"),
            PeerError::InfoHashMismatch => string_of("peer info hash does not match torrent"),
            PeerError::ShortPeerId => string_of("failed to read peer id"),
            PeerError::ShortMessageLength => string_of("failed to read message length"),
            PeerError::ShortMessageBody => string_of("failed to read message body"),
            PeerError::WrongBlockLength(want, got) => {
                let mut s = string_of("expected block of ");
                push_decimal(&mut s, *want as u64);
                push_str(&mut s, " bytes, got ");
                push_decimal(&mut s, *got as u64);
                s
            },
            PeerError::HashMismatch(i) => {
                let mut s = string_of("piece hash mismatch for piece ");
                push_decimal(&mut s, *i as u64);
                s
            },
        }
    }
}

#[derive(Debug, Clone, PartialEq, Eq)]
pub enum PeerMessage {
    KeepAlive,
    Choke,
    Unchoke,
    Interested,
    NotInterested,
    Have(u32),
    Bitfield(Vec<u8>),
    Request { index: u32, begin: u32, length: u32 },
    Piece { index: u32, begin: u32, block: Vec<u8> },
    Cancel { index: u32, begin: u32, length: u32 },
    Unknown { id: u8, payload: Vec<u8> },
}

/// A peer message with its byte strings as sequences.
pub enum MessageView {
    KeepAlive,
    Choke,
    Unchoke,
    Interested,
    NotInterested,
    Have(u32),
    Bitfield(Seq<u8>),
    Request { index: u32, begin: u32, length: u32 },
    Piece { index: u32, begin: u32, block: Seq<u8> },
    Cancel { index: u32, begin: u32, length: u32 },
    Unknown { id: u8, payload: Seq<u8> },
}

impl View for PeerMessage {
    type V = MessageView;

    open spec fn view(&self) -> MessageView {
        match self {
            PeerMessage::KeepAlive => MessageView::KeepAlive,
            PeerMessage::Choke => MessageView::Choke,
            PeerMessage::Unchoke => MessageView::Unchoke,
            PeerMessage::Interested => MessageView::Interested,
            PeerMessage::NotInterested => MessageView::NotInterested,
            PeerMessage::Have(i) => MessageView::Have(*i),
            PeerMessage::Bitfield(b) => MessageView::Bitfield(b@),
            PeerMessage::Request { index, begin, length } => MessageView::Request {
                index: *index,
                begin: *begin,
                length: *length,
            },
            PeerMessage::Piece { index, begin, block } => MessageView::Piece {
                index: *index,
                begin: *begin,
                block: block@,
            },
            PeerMessage::Cancel { index, begin, length } => MessageView::Cancel {
                index: *index,
                begin: *begin,
                length: *length,
            },
            PeerMessage::Unknown { id, payload } => MessageView::Unknown { id: *id, payload: payload@ },
        }
    }
}

/// A message of kind `id` carrying `payload`, prefixed by its length.
pub open spec fn framed(id: u8, payload: Seq<u8>) -> Result<Seq<u8>, PeerError> {
    if payload.len() + 1 > u32::MAX {
        Err(PeerError::MessageTooLarge)
    } else {
        Ok(be32((payload.len() + 1) as u32) + seq![id] + payload)
    }
}

pub open spec fn spec_encode_message(m: MessageView) -> Result<Seq<u8>, PeerError> {
    match m {
        MessageView::KeepAlive => Ok(seq![0u8, 0, 0, 0]),
        MessageView::Choke => framed(0, seq![]),
        MessageView::Unchoke => framed(1, seq![]),
        MessageView::Interested => framed(2, seq![]),
        MessageView::NotInterested => framed(3, seq![]),
        MessageView::Have(index) => framed(4, be32(index)),
        MessageView::Bitfield(bits) => framed(5, bits),
        MessageView::Request { index, begin, length } => framed(6, be32(index) + be32(begin) + be32(length)),
        MessageView::Piece { index, begin, block } => framed(7, be32(index) + be32(begin) + block),
        MessageView::Cancel { index, begin, length } => framed(8, be32(index) + be32(begin) + be32(length)),
        MessageView::Unknown { .. } => Err(PeerError::UnknownMessage),
    }
}

/// The message that the body `buf` (the bytes after the length prefix) encodes.
pub open spec fn spec_decode_message(buf: Seq<u8>) -> Result<MessageView, PeerError> {
    if buf.len() == 0 {
        Err(PeerError::EmptyMessage)
    } else {
        let id = buf[0];
        let payload = buf.drop_first();
        if id == 0 {
            Ok(MessageView::Choke)
        } else if id == 1 {
            Ok(MessageView::Unchoke)
        } else if id == 2 {
            Ok(MessageView::Interested)
        } else if id == 3 {
            Ok(MessageView::NotInterested)
        } else if id == 4 {
            if payload.len() < 4 {
                Err(PeerError::HaveTooShort)
            } else {
                Ok(MessageView::Have(from_be32(payload)))
            }
        } else if id == 5 {
            Ok(MessageView::Bitfield(payload))
        } else if id == 6 {
            if payload.len() != 12 {
                Err(PeerError::BadRequestLength(payload.len() as usize))
            } else {
                Ok(MessageView::Request {
                    index: from_be32(payload),
                    begin: from_be32(payload.skip(4)),
                    length: from_be32(payload.skip(8)),
                })
            }
        } else if id == 7 {
            if payload.len() < 8 {
                Err(PeerError::BadPieceLength(payload.len() as usize))
            } else {
                Ok(MessageView::Piece {
                    index: from_be32(payload),
                    begin: from_be32(payload.skip(4)),
                    block: payload.skip(8),
                })
            }
        } else if id == 8 {
            if payload.len() != 12 {
                Err(PeerError::BadCancelLength(payload.len() as usize))
            } else {
                Ok(MessageView::Cancel {
                    index: from_be32(payload),
                    begin: from_be32(payload.skip(4)),
                    length: from_be32(payload.skip(8)),
                })
            }
        } else {
            Ok(MessageView::Unknown { id, payload })
        }
    }
}

fn encode_payload(id: u8, payload: &[u8]) -> (r: Result<Vec<u8>, PeerError>)
    ensures
        r matches Ok(v) ==> framed(id, payload@) == Ok::<Seq<u8>, PeerError>(v@),
        r matches Err(e) ==> framed(id, payload@) == Err::<Seq<u8>, PeerError>(e),
{
    if payload.len() >= 0xffff_ffffusize {
        return Err(PeerError::MessageTooLarge);
    }
    let length: u32 = (1 + payload.len()) as u32;
    let mut buf: Vec<u8> = Vec::new();
    push_be32(&mut buf, length);
    buf.push(id);
    append(&mut buf, payload);
    assert(buf@ =~= be32(length) + seq![id] + payload@);
    Ok(buf)
}

fn three_be32(a: u32, b: u32, c: u32) -> (v: Vec<u8>)
    ensures
        v@ == be32(a) + be32(b) + be32(c),
{
    let mut payload: Vec<u8> = Vec::new();
    push_be32(&mut payload, a);
    push_be32(&mut payload, b);
    push_be32(&mut payload, c);
    assert(payload@ =~= be32(a) + be32(b) + be32(c));
    payload
}

/// The bytes that send `message` to a peer.
pub fn encode_message(message: &PeerMessage) -> (r: Result<Vec<u8>, PeerError>)
    ensures
        r matches Ok(v) ==> spec_encode_message(message@) == Ok::<Seq<u8>, PeerError>(v@),
        r matches Err(e) ==> spec_encode_message(message@) == Err::<Seq<u8>, PeerError>(e),
{
    match message {
        PeerMessage::KeepAlive => {
            let v: Vec<u8> = vec![0, 0, 0, 0];
            assert(v@ =~= seq![0u8, 0, 0, 0]);
            Ok(v)
        },
        PeerMessage::Choke => encode_payload(0, &[]),
        PeerMessage::Unchoke => encode_payload(1, &[]),
        PeerMessage::Interested => encode_payload(2, &[]),
        PeerMessage::NotInterested => encode_payload(3, &[]),
        PeerMessage::Have(index) => {
            let mut payload: Vec<u8> = Vec::new();
            push_be32(&mut payload, *index);
            assert(payload@ =~= be32(*index));
            encode_payload(4, payload.as_slice())
        },
        PeerMessage::Bitfield(bits) => encode_payload(5, bits.as_slice()),
        PeerMessage::Request { index, begin, length } => {
            let payload = three_be32(*index, *begin, *length);
            encode_payload(6, payload.as_slice())
        },
        PeerMessage::Piece { index, begin, block } => {
            let mut payload: Vec<u8> = Vec::new();
            push_be32(&mut payload, *index);
            push_be32(&mut payload, *begin);
            append(&mut payload, block.as_slice());
            assert(payload@ =~= be32(*index) + be32(*begin) + block@);
            encode_payload(7, payload.as_slice())
        },
        PeerMessage::Cancel { index, begin, length } => {
            let payload = three_be32(*index, *begin, *length);
            encode_payload(8, payload.as_slice())
        },
        PeerMessage::Unknown { .. } => Err(PeerError::UnknownMessage),
    }
}

/// The message carried by the body `buf` of a length-prefixed frame.
pub fn decode_message(buf: &[u8]) -> (r: Result<PeerMessage, PeerError>)
    ensures
        r matches Ok(m) ==> spec_decode_message(buf@) == Ok::<MessageView, PeerError>(m@),
        r matches Err(e) ==> spec_decode_message(buf@) == Err::<MessageView, PeerError>(e),
{
    if buf.len() == 0 {
        return Err(PeerError::EmptyMessage);
    }
    let id = buf[0];
    let n = buf.len() - 1;
    let ghost payload = buf@.drop_first();
    assert(payload =~= buf@.subrange(1, buf@.len() as int));
    assert forall|k: int| 0 <= k <= n - 4 implies #[trigger] payload.skip(k).subrange(0, 4) =~= buf@.subrange(1 + k, 5 + k) by {}
    if id == 0 {
        Ok(PeerMessage::Choke)
    } else if id == 1 {
        Ok(PeerMessage::Unchoke)
    } else if id == 2 {
        Ok(PeerMessage::Interested)
    } else if id == 3 {
        Ok(PeerMessage::NotInterested)
    } else if id == 4 {
        if n < 4 {
            return Err(PeerError::HaveTooShort);
        }
        let index = read_be32(buf, 1);
        assert(payload.skip(0) =~= payload);
        Ok(PeerMessage::Have(index))
    } else if id == 5 {
        let bits = copy_range(buf, 1, buf.len());
        Ok(PeerMessage::Bitfield(bits))
    } else if id == 6 || id == 8 {
        if n != 12 {
            if id == 6 {
                return Err(PeerError::BadRequestLength(n));
            } else {
                return Err(PeerError::BadCancelLength(n));
            }
        }
        let index = read_be32(buf, 1);
        let begin = read_be32(buf, 5);
        let length = read_be32(buf, 9);
        assert(payload.skip(0) =~= payload);
        if id == 6 {
            Ok(PeerMessage::Request { index, begin, length })
        } else {
            Ok(PeerMessage::Cancel { index, begin, length })
        }
    } else if id == 7 {
        if n < 8 {
            return Err(PeerError::BadPieceLength(n));
        }
        let index = read_be32(buf, 1);
        let begin = read_be32(buf, 5);
        let block = copy_range(buf, 9, buf.len());
        assert(payload.skip(0) =~= payload);
        assert(block@ =~= payload.skip(8));
        Ok(PeerMessage::Piece { index, begin, block })
    } else {
        let payload_vec = copy_range(buf, 1, buf.len());
        Ok(PeerMessage::Unknown { id, payload: payload_vec })
    }
}

/// The handshake that announces `peer_id` as a peer of the torrent `info_hash`.
pub open spec fn handshake_bytes(info_hash: Seq<u8>, peer_id: Seq<u8>) -> Seq<u8> {
    seq![HANDSHAKE_LEN] + protocol() + Seq::new(8, |i: int| 0u8) + info_hash + peer_id
}

/// The outcome of reading a handshake from the bytes `r` when the torrent's info hash
/// is `expected`: the remote peer id, or why the handshake is refused.
pub open spec fn spec_read_handshake(r: Seq<u8>, expected: Seq<u8>) -> Result<Seq<u8>, PeerError> {
    if r.len() < 1 {
        Err(PeerError::ShortHandshakeLength)
    } else if r[0] != HANDSHAKE_LEN {
        Err(PeerError::BadProtocolLength(r[0]))
    } else if r.len() < 20 {
        Err(PeerError::ShortProtocol)
    } else if r.subrange(1, 20) != protocol() {
        Err(PeerError::BadProtocol)
    } else if r.len() < 28 {
        Err(PeerError::ShortReserved)
    } else if r.len() < 48 {
        Err(PeerError::ShortInfoHash)
    } else if r.subrange(28, 48) != expected {
        Err(PeerError::InfoHashMismatch)
    } else if r.len() < 68 {
        Err(PeerError::ShortPeerId)
    } else {
        Ok(r.subrange(48, 68))
    }
}

/// What is left of `r` once a handshake has been read from it.
pub open spec fn handshake_rest(r: Seq<u8>, expected: Seq<u8>) -> Seq<u8> {
    if r.len() < 1 {
        seq![]
    } else if r[0] != HANDSHAKE_LEN {
        r.skip(1)
    } else if r.len() < 20 {
        seq![]
    } else if r.subrange(1, 20) != protocol() {
        r.skip(20)
    } else if r.len() < 48 {
        seq![]
    } else if r.subrange(28, 48) != expected {
        r.skip(48)
    } else if r.len() < 68 {
        seq![]
    } else {
        r.skip(68)
    }
}

/// The outcome of reading one length-prefixed message from the bytes `r`.
pub open spec fn spec_read_message(r: Seq<u8>) -> Result<MessageView, PeerError> {
    if r.len() < 4 {
        Err(PeerError::ShortMessageLength)
    } else if from_be32(r) == 0 {
        Ok(MessageView::KeepAlive)
    } else if r.len() - 4 < from_be32(r) {
        Err(PeerError::ShortMessageBody)
    } else {
        spec_decode_message(r.subrange(4, 4 + from_be32(r)))
    }
}

/// What is left of `r` once a message has been read from it.
pub open spec fn message_rest(r: Seq<u8>) -> Seq<u8> {
    if r.len() < 4 {
        seq![]
    } else if r.len() - 4 < from_be32(r) {
        seq![]
    } else {
        r.skip(4 + from_be32(r))
    }
}

/// An in-memory byte stream read from the front.
pub struct Cursor {
    data: Vec<u8>,
    pos: usize,
}

impl Cursor {
    /// The bytes not read yet.
    pub closed spec fn remaining(&self) -> Seq<u8> {
        if self.pos <= self.data@.len() {
            self.data@.skip(self.pos as int)
        } else {
            seq![]
        }
    }

    pub fn new(data: Vec<u8>) -> (c: Cursor)
        ensures
            c.remaining() == data@,
    {
        let c = Cursor { data, pos: 0 };
        assert(c.data@.skip(0) =~= c.data@);
        c
    }

    /// Reads exactly `n` bytes; when fewer are left, reads all of them and fails.
    pub fn read_exact(&mut self, n: usize) -> (r: Option<Vec<u8>>)
        ensures
            old(self).remaining().len() >= n ==> (r matches Some(v) && v@ == old(self).remaining().take(n as int)
                && final(self).remaining() == old(self).remaining().skip(n as int)),
            old(self).remaining().len() < n ==> r is None && final(self).remaining() == Seq::<u8>::empty(),
    {
        if self.pos > self.data.len() {
            self.pos = self.data.len();
        }
        if self.data.len() - self.pos < n {
            self.pos = self.data.len();
            assert(self.data@.skip(self.pos as int) =~= Seq::<u8>::empty());
            return None;
        }
        let v = copy_range(self.data.as_slice(), self.pos, self.pos + n);
        self.pos = self.pos + n;
        assert(v@ =~= old(self).remaining().take(n as int));
        assert(self.remaining() =~= old(self).remaining().skip(n as int));
        Some(v)
    }
}

/// Appends the handshake for `peer_id` on the torrent `info_hash` to `writer`.
pub fn write_handshake(writer: &mut Vec<u8>, info_hash: [u8; 20], peer_id: [u8; 20]) -> (r: Result<(), PeerError>)
    ensures
        r is Ok,
        final(writer)@ == old(writer)@ + handshake_bytes(info_hash@, peer_id@),
{
    let mut buf: Vec<u8> = Vec::new();
    buf.push(HANDSHAKE_LEN);
    let proto = protocol_bytes();
    append(&mut buf, &proto);
    append(&mut buf, &[0u8; 8]);
    append(&mut buf, &info_hash);
    append(&mut buf, &peer_id);
    assert(buf@ =~= handshake_bytes(info_hash@, peer_id@));
    append(writer, buf.as_slice());
    Ok(())
}

/// Reads a peer's handshake, checks it is for the torrent `expected_info_hash`, and
/// returns the peer's id.
pub fn read_handshake(reader: &mut Cursor, expected_info_hash: [u8; 20]) -> (r: Result<[u8; 20], PeerError>)
    ensures
        r matches Ok(id) ==> spec_read_handshake(old(reader).remaining(), expected_info_hash@) == Ok::<Seq<u8>, PeerError>(id@),
        r matches Err(e) ==> spec_read_handshake(old(reader).remaining(), expected_info_hash@) == Err::<Seq<u8>, PeerError>(e),
        final(reader).remaining() == handshake_rest(old(reader).remaining(), expected_info_hash@),
{
    let ghost r0 = reader.remaining();
    let pstrlen = match reader.read_exact(1) {
        Some(v) => v,
        None => {
            return Err(PeerError::ShortHandshakeLength);
        },
    };
    if pstrlen[0] != HANDSHAKE_LEN {
        return Err(PeerError::BadProtocolLength(pstrlen[0]));
    }
    let protocol = match reader.read_exact(19) {
        Some(v) => v,
        None => {
            return Err(PeerError::ShortProtocol);
        },
    };
    assert(protocol@ =~= r0.subrange(1, 20));
    let proto = protocol_bytes();
    if !bytes_equal(protocol.as_slice(), &proto) {
        assert(reader.remaining() =~= r0.skip(20));
        return Err(PeerError::BadProtocol);
    }
    if reader.read_exact(8).is_none() {
        return Err(PeerError::ShortReserved);
    }
    assert(reader.remaining() =~= r0.skip(28));
    let info_hash = match reader.read_exact(20) {
        Some(v) => v,
        None => {
            return Err(PeerError::ShortInfoHash);
        },
    };
    assert(info_hash@ =~= r0.subrange(28, 48));
    if !bytes_equal(info_hash.as_slice(), &expected_info_hash) {
        assert(reader.remaining() =~= r0.skip(48));
        return Err(PeerError::InfoHashMismatch);
    }
    let remote = match reader.read_exact(20) {
        Some(v) => v,
        None => {
            return Err(PeerError::ShortPeerId);
        },
    };
    assert(remote@ =~= r0.subrange(48, 68));
    assert(reader.remaining() =~= r0.skip(68));
    let id = array20_at(remote.as_slice(), 0);
    assert(remote@.subrange(0, 20) =~= remote@);
    Ok(id)
}

/// Appends the encoding of `message` to `writer`.
pub fn send_message(writer: &mut Vec<u8>, message: PeerMessage) -> (r: Result<(), PeerError>)
    ensures
        r is Ok <==> spec_encode_message(message@) is Ok,
        r matches Err(e) ==> spec_encode_message(message@) == Err::<Seq<u8>, PeerError>(e) && final(writer)@ == old(writer)@,
        r is Ok ==> final(writer)@ == old(writer)@ + spec_encode_message(message@)->Ok_0,
{
    let payload = encode_message(&message)?;
    append(writer, payload.as_slice());
    Ok(())
}

/// Reads one length-prefixed message.
pub fn read_message(reader: &mut Cursor) -> (r: Result<PeerMessage, PeerError>)
    ensures
        r matches Ok(m) ==> spec_read_message(old(reader).remaining()) == Ok::<MessageView, PeerError>(m@),
        r matches Err(e) ==> spec_read_message(old(reader).remaining()) == Err::<MessageView, PeerError>(e),
        final(reader).remaining() == message_rest(old(reader).remaining()),
{
    let ghost r0 = reader.remaining();
    let length = match read_u32_be(reader) {
        Some(x) => x,
        None => {
            return Err(PeerError::ShortMessageLength);
        },
    };
    if length == 0 {
        assert(reader.remaining() =~= r0.skip(4));
        return Ok(PeerMessage::KeepAlive);
    }
    let buf = match reader.read_exact(length as usize) {
        Some(v) => v,
        None => {
            return Err(PeerError::ShortMessageBody);
        },
    };
    assert(buf@ =~= r0.subrange(4, 4 + length));
    assert(reader.remaining() =~= r0.skip(4 + length));
    decode_message(buf.as_slice())
}

fn read_u32_be(reader: &mut Cursor) -> (r: Option<u32>)
    ensures
        old(reader).remaining().len() >= 4 ==> r == Some(from_be32(old(reader).remaining()))
            && final(reader).remaining() == old(reader).remaining().skip(4),
        old(reader).remaining().len() < 4 ==> r is None && final(reader).remaining() == Seq::<u8>::empty(),
{
    let buf = reader.read_exact(4)?;
    Some(read_be32(buf.as_slice(), 0))
}

pub open spec fn min(a: int, b: int) -> int {
    if a < b {
        a
    } else {
        b
    }
}

/// The length of the block that starts at `begin` in a piece of `piece_size` bytes.
pub open spec fn spec_block_length(piece_size: u64, begin: u32) -> u32 {
    if piece_size <= begin {
        0
    } else {
        min(piece_size - begin, BLOCK_SIZE as int) as u32
    }
}

pub fn block_length_for_piece(piece_size: u64, begin: u32) -> (n: u32)
    ensures
        n == spec_block_length(piece_size, begin),
{
    let remaining: u64 = if piece_size > begin as u64 {
        piece_size - begin as u64
    } else {
        0
    };
    if remaining < BLOCK_SIZE as u64 {
        remaining as u32
    } else {
        BLOCK_SIZE
    }
}

/// The length of piece `piece_index` of a torrent of `total_size` bytes cut into
/// pieces of `piece_length` bytes (0 past the end).
pub open spec fn spec_piece_size(total_size: u64, piece_length: u64, piece_index: u32) -> u64 {
    let start = piece_index * piece_length;
    if start >= total_size {
        0
    } else {
        (min(start + piece_length, total_size as int) - start) as u64
    }
}

/// Whether `piece_size` computes without overflowing a `u64`.
pub open spec fn piece_size_ok(total_size: u64, piece_length: u64, piece_index: u32) -> bool {
    &&& piece_index * piece_length <= u64::MAX
    &&& piece_index * piece_length < total_size ==> piece_index * piece_length + piece_length <= u64::MAX
}

pub fn piece_size(total_size: u64, piece_length: u64, piece_index: u32) -> (n: u64)
    requires
        piece_size_ok(total_size, piece_length, piece_index),
    ensures
        n == spec_piece_size(total_size, piece_length, piece_index),
{
    let start = piece_index as u64 * piece_length;
    if start >= total_size {
        return 0;
    }
    let end = if start + piece_length < total_size {
        start + piece_length
    } else {
        total_size
    };
    end - start
}

#[derive(Debug, Clone, PartialEq, Eq)]
pub struct DownloadedBlock {
    pub piece_index: u32,
    pub begin: u32,
    pub data: Vec<u8>,
}

/// What a session waiting for a block does with a message it receives.
#[derive(Debug, Clone, Copy, PartialEq, Eq)]
pub enum BlockStep {
    /// The message is the requested block.
    Deliver,
    /// The message is the requested block but has the wrong length.
    WrongLength(usize),
    /// The peer choked: wait for an unchoke, then request again.
    Choked,
    /// The peer unchoked.
    Unchoked,
    /// The message does not matter here.
    Ignore,
    /// The message is not allowed here.
    Unexpected,
}

pub open spec fn spec_block_step(m: MessageView, piece_index: u32, begin: u32, length: u32) -> BlockStep {
    match m {
        MessageView::Piece { index, begin: block_begin, block } => {
            if index == piece_index && block_begin == begin {
                if block.len() != length {
                    BlockStep::WrongLength(block.len() as usize)
                } else {
                    BlockStep::Deliver
                }
            } else {
                BlockStep::Unexpected
            }
        },
        MessageView::Choke => BlockStep::Choked,
        MessageView::Unchoke => BlockStep::Unchoked,
        MessageView::KeepAlive | MessageView::Bitfield(_) | MessageView::Have(_) | MessageView::Interested
        | MessageView::NotInterested | MessageView::Unknown { .. } => BlockStep::Ignore,
        _ => BlockStep::Unexpected,
    }
}

/// Decides what to do with `message` while waiting for block `begin` of piece
/// `piece_index`, requested with `length` bytes.
pub fn block_step(message: &PeerMessage, piece_index: u32, begin: u32, length: u32) -> (s: BlockStep)
    ensures
        s == spec_block_step(message@, piece_index, begin, length),
{
    match message {
        PeerMessage::Piece { index, begin: block_begin, block } => {
            if *index == piece_index && *block_begin == begin {
                if block.len() != length as usize {
                    BlockStep::WrongLength(block.len())
                } else {
                    BlockStep::Deliver
                }
            } else {
                BlockStep::Unexpected
            }
        },
        PeerMessage::Choke => BlockStep::Choked,
        PeerMessage::Unchoke => BlockStep::Unchoked,
        PeerMessage::KeepAlive | PeerMessage::Bitfield(_) | PeerMessage::Have(_) | PeerMessage::Interested
        | PeerMessage::NotInterested | PeerMessage::Unknown { .. } => BlockStep::Ignore,
        _ => BlockStep::Unexpected,
    }
}

/// What a choked session does with a message it receives.
#[derive(Debug, Clone, Copy, PartialEq, Eq)]
pub enum UnchokeStep {
    Unchoked,
    Choked,
    Ignore,
    Unexpected,
}

pub open spec fn spec_unchoke_step(m: MessageView) -> UnchokeStep {
    match m {
        MessageView::Unchoke => UnchokeStep::Unchoked,
        MessageView::Choke => UnchokeStep::Choked,
        MessageView::KeepAlive | MessageView::Bitfield(_) | MessageView::Have(_) | MessageView::Interested
        | MessageView::NotInterested | MessageView::Unknown { .. } => UnchokeStep::Ignore,
        _ => UnchokeStep::Unexpected,
    }
}

/// Decides what to do with `message` while waiting to be unchoked.
pub fn unchoke_step(message: &PeerMessage) -> (s: UnchokeStep)
    ensures
        s == spec_unchoke_step(message@),
{
    match message {
        PeerMessage::Unchoke => UnchokeStep::Unchoked,
        PeerMessage::Choke => UnchokeStep::Choked,
        PeerMessage::KeepAlive | PeerMessage::Bitfield(_) | PeerMessage::Have(_) | PeerMessage::Interested
        | PeerMessage::NotInterested | PeerMessage::Unknown { .. } => UnchokeStep::Ignore,
        _ => UnchokeStep::Unexpected,
    }
}

// ─── Laws ────────────────────────────────────────────────────────────────────

/// The 68 bytes of a handshake: the length 19, the ASCII text `BitTorrent protocol`,
/// eight zero bytes, the info hash, then the peer id.
pub proof fn lemma_handshake_layout(info_hash: Seq<u8>, peer_id: Seq<u8>)
    requires
        info_hash.len() == 20,
        peer_id.len() == 20,
    ensures
        handshake_bytes(info_hash, peer_id).len() == 68,
        handshake_bytes(info_hash, peer_id)[0] == 19,
        forall|i: int|
            0 <= i < 19 ==> handshake_bytes(info_hash, peer_id)[1 + i] as u32 == (#[trigger] "BitTorrent protocol"@[i]) as u32,
        forall|i: int| 20 <= i < 28 ==> #[trigger] handshake_bytes(info_hash, peer_id)[i] == 0,
        handshake_bytes(info_hash, peer_id).subrange(28, 48) == info_hash,
        handshake_bytes(info_hash, peer_id).subrange(48, 68) == peer_id,
{
    reveal_strlit("BitTorrent protocol");
    let h = handshake_bytes(info_hash, peer_id);
    assert(h.subrange(28, 48) =~= info_hash);
    assert(h.subrange(48, 68) =~= peer_id);
    assert forall|i: int| 0 <= i < 19 implies h[1 + i] as u32 == (#[trigger] "BitTorrent protocol"@[i]) as u32 by {
        assert(h[1 + i] == protocol()[i]);
    }
}

/// A handshake written for a torrent reads back, for that torrent, as the peer id it
/// announced, whatever follows it.
pub proof fn lemma_handshake_roundtrip(info_hash: Seq<u8>, peer_id: Seq<u8>, rest: Seq<u8>)
    requires
        info_hash.len() == 20,
        peer_id.len() == 20,
    ensures
        spec_read_handshake(handshake_bytes(info_hash, peer_id) + rest, info_hash) == Ok::<Seq<u8>, PeerError>(peer_id),
        handshake_rest(handshake_bytes(info_hash, peer_id) + rest, info_hash) == rest,
{
    let r = handshake_bytes(info_hash, peer_id) + rest;
    assert(r.subrange(1, 20) =~= protocol());
    assert(r.subrange(28, 48) =~= info_hash);
    assert(r.subrange(48, 68) =~= peer_id);
    assert(r.skip(68) =~= rest);
}

/// A handshake written for one torrent is refused by a reader expecting another.
pub proof fn lemma_handshake_rejects_other_torrent(
    info_hash: Seq<u8>,
    peer_id: Seq<u8>,
    expected: Seq<u8>,
    rest: Seq<u8>,
)
    requires
        info_hash.len() == 20,
        peer_id.len() == 20,
        expected != info_hash,
    ensures
        spec_read_handshake(handshake_bytes(info_hash, peer_id) + rest, expected) == Err::<Seq<u8>, PeerError>(
            PeerError::InfoHashMismatch,
        ),
{
    let r = handshake_bytes(info_hash, peer_id) + rest;
    assert(r.subrange(1, 20) =~= protocol());
    assert(r.subrange(28, 48) =~= info_hash);
}

proof fn lemma_be32_skip(a: u32, b: u32, tail: Seq<u8>)
    ensures
        from_be32(be32(a) + be32(b) + tail) == a,
        from_be32((be32(a) + be32(b) + tail).skip(4)) == b,
        (be32(a) + be32(b) + tail).skip(8) == tail,
{
    lemma_be32_roundtrip(a);
    lemma_be32_roundtrip(b);
    let s = be32(a) + be32(b) + tail;
    assert(s.skip(4).subrange(0, 4) =~= be32(b));
    assert(s.subrange(0, 4) =~= be32(a));
    assert(s.skip(8) =~= tail);
}

/// Every message that can be sent reads back as itself, and the reader stops right
/// after it.
pub proof fn lemma_message_roundtrip(m: MessageView, rest: Seq<u8>)
    requires
        spec_encode_message(m) is Ok,
    ensures
        spec_read_message(spec_encode_message(m)->Ok_0 + rest) == Ok::<MessageView, PeerError>(m),
        message_rest(spec_encode_message(m)->Ok_0 + rest) == rest,
{
    let bytes = spec_encode_message(m)->Ok_0;
    let r = bytes + rest;
    match m {
        MessageView::KeepAlive => {
            assert(r[0] == 0 && r[1] == 0 && r[2] == 0 && r[3] == 0);
            assert(((0u8 as u32) << 24u32) | ((0u8 as u32) << 16u32) | ((0u8 as u32) << 8u32) | (0u8 as u32) == 0u32) by (bit_vector);
            assert(from_be32(r) == 0);
            assert(r.skip(4) =~= rest);
        },
        _ => {
            let body = bytes.skip(4);
            lemma_be32_roundtrip((body.len()) as u32);
            assert(r.subrange(0, 4) =~= bytes.subrange(0, 4));
            assert(bytes.subrange(0, 4) =~= be32(body.len() as u32));
            assert(from_be32(r) == from_be32(bytes.subrange(0, 4)));
            assert(r.subrange(4, 4 + body.len() as int) =~= body);
            assert(r.skip(4 + body.len() as int) =~= rest);
            let payload = body.drop_first();
            match m {
                MessageView::Have(i) => {
                    lemma_be32_roundtrip(i);
                    assert(payload =~= be32(i));
                },
                MessageView::Bitfield(bits) => {
                    assert(payload =~= bits);
                },
                MessageView::Request { index, begin, length } => {
                    assert(payload =~= be32(index) + be32(begin) + be32(length));
                    lemma_be32_skip(index, begin, be32(length));
                    lemma_be32_roundtrip(length);
                },
                MessageView::Piece { index, begin, block } => {
                    assert(payload =~= be32(index) + be32(begin) + block);
                    lemma_be32_skip(index, begin, block);
                },
                MessageView::Cancel { index, begin, length } => {
                    assert(payload =~= be32(index) + be32(begin) + be32(length));
                    lemma_be32_skip(index, begin, be32(length));
                    lemma_be32_roundtrip(length);
                },
                _ => {},
            }
        },
    }
}

/// The four bytes of `x`, most significant first: its digits in base 256.
pub proof fn lemma_be32_digits(x: u32)
    ensures
        be32(x) == seq![(x / 16777216) as u8, (x / 65536 % 256) as u8, (x / 256 % 256) as u8, (x % 256) as u8],
{
    assert((x >> 24u32) as u8 == (x / 16777216) as u8) by (bit_vector);
    assert(((x >> 16u32) & 0xffu32) as u8 == (x / 65536 % 256) as u8) by (bit_vector);
    assert(((x >> 8u32) & 0xffu32) as u8 == (x / 256 % 256) as u8) by (bit_vector);
    assert((x & 0xffu32) as u8 == (x % 256) as u8) by (bit_vector);
    assert(be32(x) =~= seq![(x / 16777216) as u8, (x / 65536 % 256) as u8, (x / 256 % 256) as u8, (x % 256) as u8]);
}

/// The four bytes of 1, 5 and 13, the lengths of the messages without payload, of a
/// have and of a request or cancel.
proof fn lemma_small_lengths()
    ensures
        be32(1) == seq![0u8, 0, 0, 1],
        be32(5) == seq![0u8, 0, 0, 5],
        be32(13) == seq![0u8, 0, 0, 13],
{
    lemma_be32_digits(1);
    lemma_be32_digits(5);
    lemma_be32_digits(13);
}

/// Each kind of message without payload goes out under its id after the four-byte
/// length: choke 0, unchoke 1, interested 2, not interested 3; a keep-alive is a
/// length of zero.
pub proof fn lemma_message_ids_written()
    ensures
        spec_encode_message(MessageView::KeepAlive) == Ok::<Seq<u8>, PeerError>(seq![0u8, 0, 0, 0]),
        spec_encode_message(MessageView::Choke) == Ok::<Seq<u8>, PeerError>(seq![0u8, 0, 0, 1, 0]),
        spec_encode_message(MessageView::Unchoke) == Ok::<Seq<u8>, PeerError>(seq![0u8, 0, 0, 1, 1]),
        spec_encode_message(MessageView::Interested) == Ok::<Seq<u8>, PeerError>(seq![0u8, 0, 0, 1, 2]),
        spec_encode_message(MessageView::NotInterested) == Ok::<Seq<u8>, PeerError>(seq![0u8, 0, 0, 1, 3]),
{
    lemma_small_lengths();
    let one = be32(1);
    assert(one + seq![0u8] + seq![] =~= seq![0u8, 0, 0, 1, 0]);
    assert(one + seq![1u8] + seq![] =~= seq![0u8, 0, 0, 1, 1]);
    assert(one + seq![2u8] + seq![] =~= seq![0u8, 0, 0, 1, 2]);
    assert(one + seq![3u8] + seq![] =~= seq![0u8, 0, 0, 1, 3]);
}

/// Each kind of message with a payload goes out under its id after the four-byte
/// length: have 4, bitfield 5, request 6, piece 7, cancel 8, the numbers big-endian;
/// a message of unknown kind is not sent.
pub proof fn lemma_payload_ids_written(index: u32, begin: u32, length: u32, bits: Seq<u8>, block: Seq<u8>)
    requires
        bits.len() + 1 <= u32::MAX,
        block.len() + 9 <= u32::MAX,
    ensures
        spec_encode_message(MessageView::Have(index)) == Ok::<Seq<u8>, PeerError>(seq![0u8, 0, 0, 5, 4] + be32(index)),
        spec_encode_message(MessageView::Bitfield(bits)) == Ok::<Seq<u8>, PeerError>(
            be32((bits.len() + 1) as u32) + seq![5u8] + bits,
        ),
        spec_encode_message(MessageView::Request { index, begin, length }) == Ok::<Seq<u8>, PeerError>(
            seq![0u8, 0, 0, 13, 6] + be32(index) + be32(begin) + be32(length),
        ),
        spec_encode_message(MessageView::Piece { index, begin, block }) == Ok::<Seq<u8>, PeerError>(
            be32((block.len() + 9) as u32) + seq![7u8] + be32(index) + be32(begin) + block,
        ),
        spec_encode_message(MessageView::Cancel { index, begin, length }) == Ok::<Seq<u8>, PeerError>(
            seq![0u8, 0, 0, 13, 8] + be32(index) + be32(begin) + be32(length),
        ),
        spec_encode_message(MessageView::Unknown { id: 9, payload: bits }) == Err::<Seq<u8>, PeerError>(
            PeerError::UnknownMessage,
        ),
{
    lemma_small_lengths();
    assert(be32(5) + seq![4u8] + be32(index) =~= seq![0u8, 0, 0, 5, 4] + be32(index));
    assert(be32(13) + seq![6u8] + (be32(index) + be32(begin) + be32(length)) =~= seq![0u8, 0, 0, 13, 6]
        + be32(index) + be32(begin) + be32(length));
    assert(be32(13) + seq![8u8] + (be32(index) + be32(begin) + be32(length)) =~= seq![0u8, 0, 0, 13, 8]
        + be32(index) + be32(begin) + be32(length));
    assert(be32((block.len() + 9) as u32) + seq![7u8] + (be32(index) + be32(begin) + block) =~= be32(
        (block.len() + 9) as u32,
    ) + seq![7u8] + be32(index) + be32(begin) + block);
}

/// A message body is read by its first byte, the kind's id: 0 choke, 1 unchoke,
/// 2 interested, 3 not interested, 4 have, 5 bitfield, 6 request, 7 piece, 8 cancel;
/// any other id is a message of unknown kind that carries the rest of the body.
pub proof fn lemma_message_ids_read(id: u8, index: u32, begin: u32, length: u32, rest: Seq<u8>)
    ensures
        spec_decode_message(seq![0u8] + rest) == Ok::<MessageView, PeerError>(MessageView::Choke),
        spec_decode_message(seq![1u8] + rest) == Ok::<MessageView, PeerError>(MessageView::Unchoke),
        spec_decode_message(seq![2u8] + rest) == Ok::<MessageView, PeerError>(MessageView::Interested),
        spec_decode_message(seq![3u8] + rest) == Ok::<MessageView, PeerError>(MessageView::NotInterested),
        spec_decode_message(seq![4u8] + be32(index) + rest) == Ok::<MessageView, PeerError>(MessageView::Have(index)),
        spec_decode_message(seq![5u8] + rest) == Ok::<MessageView, PeerError>(MessageView::Bitfield(rest)),
        spec_decode_message(seq![6u8] + be32(index) + be32(begin) + be32(length)) == Ok::<MessageView, PeerError>(
            MessageView::Request { index, begin, length },
        ),
        spec_decode_message(seq![7u8] + be32(index) + be32(begin) + rest) == Ok::<MessageView, PeerError>(
            MessageView::Piece { index, begin, block: rest },
        ),
        spec_decode_message(seq![8u8] + be32(index) + be32(begin) + be32(length)) == Ok::<MessageView, PeerError>(
            MessageView::Cancel { index, begin, length },
        ),
        id >= 9 ==> spec_decode_message(seq![id] + rest) == Ok::<MessageView, PeerError>(
            MessageView::Unknown { id, payload: rest },
        ),
{
    lemma_be32_roundtrip(index);
    lemma_be32_roundtrip(length);
    assert((seq![0u8] + rest).drop_first() =~= rest);
    assert((seq![5u8] + rest).drop_first() =~= rest);
    assert((seq![id] + rest).drop_first() =~= rest);
    let have = seq![4u8] + be32(index) + rest;
    assert(have.drop_first() =~= be32(index) + rest);
    assert((be32(index) + rest).subrange(0, 4) =~= be32(index));
    let request = seq![6u8] + be32(index) + be32(begin) + be32(length);
    assert(request.drop_first() =~= be32(index) + be32(begin) + be32(length));
    lemma_be32_skip(index, begin, be32(length));
    let piece = seq![7u8] + be32(index) + be32(begin) + rest;
    assert(piece.drop_first() =~= be32(index) + be32(begin) + rest);
    lemma_be32_skip(index, begin, rest);
    let cancel = seq![8u8] + be32(index) + be32(begin) + be32(length);
    assert(cancel.drop_first() =~= be32(index) + be32(begin) + be32(length));
}

/// While a block is awaited: a choke, and only a choke, makes the session wait for an
/// unchoke and ask again; an unchoke, and only an unchoke, is noted; the block asked
/// for is delivered when its length is the one asked for and refused with its length
/// otherwise; keep-alives, bitfields, haves, interest messages and messages of unknown
/// kind are passed over; every other message (a request, a cancel, another block)
/// ends the wait.
pub proof fn lemma_block_step_cases(m: MessageView, piece_index: u32, begin: u32, length: u32)
    ensures
        spec_block_step(m, piece_index, begin, length) == BlockStep::Choked <==> m == MessageView::Choke,
        spec_block_step(m, piece_index, begin, length) == BlockStep::Unchoked <==> m == MessageView::Unchoke,
        spec_block_step(m, piece_index, begin, length) == BlockStep::Deliver <==> (m matches MessageView::Piece {
            index,
            begin: b,
            block,
        } && index == piece_index && b == begin && block.len() == length),
        (m matches MessageView::Piece { index, begin: b, block } && index == piece_index && b == begin
            && block.len() != length) ==> spec_block_step(m, piece_index, begin, length) == BlockStep::WrongLength(
            m->block.len() as usize,
        ),
        spec_block_step(m, piece_index, begin, length) is WrongLength ==> m is Piece,
        spec_block_step(m, piece_index, begin, length) == BlockStep::Ignore <==> (m is KeepAlive || m is Bitfield
            || m is Have || m is Interested || m is NotInterested || m is Unknown),
        spec_block_step(m, piece_index, begin, length) == BlockStep::Unexpected <==> (m is Request || m is Cancel
            || (m matches MessageView::Piece { index, begin: b, .. } && !(index == piece_index && b == begin))),
{
}

/// While waiting to be unchoked: an unchoke ends the wait, a choke keeps it,
/// keep-alives, bitfields, haves, interest messages and messages of unknown kind are
/// passed over, and a request, a cancel or a block ends the session.
pub proof fn lemma_unchoke_step_cases(m: MessageView)
    ensures
        spec_unchoke_step(m) == UnchokeStep::Unchoked <==> m == MessageView::Unchoke,
        spec_unchoke_step(m) == UnchokeStep::Choked <==> m == MessageView::Choke,
        spec_unchoke_step(m) == UnchokeStep::Ignore <==> (m is KeepAlive || m is Bitfield || m is Have
            || m is Interested || m is NotInterested || m is Unknown),
        spec_unchoke_step(m) == UnchokeStep::Unexpected <==> (m is Request || m is Cancel || m is Piece),
{
}

/// A piece being put together from its blocks, requested one after another from
/// the start.
pub struct PieceDownload {
    piece_index: u32,
    piece_length: u64,
    data: Vec<u8>,
    begin: u32,
}

impl PieceDownload {
    pub closed spec fn spec_index(&self) -> u32 {
        self.piece_index
    }

    pub closed spec fn spec_length(&self) -> u64 {
        self.piece_length
    }

    /// The bytes of the piece, zero where no block came yet.
    pub closed spec fn spec_data(&self) -> Seq<u8> {
        self.data@
    }

    /// Where the next block starts.
    pub closed spec fn spec_begin(&self) -> u32 {
        self.begin
    }

    /// The piece fits the `u32` offsets of blocks, its bytes are all there, and the
    /// next block starts inside it or at its end.
    #[verifier::type_invariant]
    spec fn wf(&self) -> bool {
        &&& self.piece_length <= u32::MAX
        &&& self.data@.len() == self.piece_length
        &&& self.begin <= self.piece_length
    }

    /// A piece of `piece_length` bytes with no block yet.
    pub fn new(piece_index: u32, piece_length: u64) -> (p: PieceDownload)
        requires
            piece_length <= u32::MAX,
        ensures
            p.spec_index() == piece_index,
            p.spec_length() == piece_length,
            p.spec_begin() == 0,
            p.spec_data() == Seq::new(piece_length as nat, |i: int| 0u8),
    {
        let mut data: Vec<u8> = Vec::new();
        let mut i: u64 = 0;
        while i < piece_length
            invariant
                i <= piece_length <= u32::MAX,
                data@ == Seq::new(i as nat, |j: int| 0u8),
            decreases piece_length - i,
        {
            data.push(0u8);
            assert(data@ =~= Seq::new((i + 1) as nat, |j: int| 0u8));
            i += 1;
        }
        PieceDownload { piece_index, piece_length, data, begin: 0 }
    }

    /// The block to request next: where it starts and its length; none once the
    /// piece is complete.
    pub fn next_block(&self) -> (r: Option<(u32, u32)>)
        ensures
            self.spec_begin() < self.spec_length() ==> r == Some(
                (self.spec_begin(), spec_block_length(self.spec_length(), self.spec_begin())),
            ),
            self.spec_begin() >= self.spec_length() ==> r is None,
    {
        proof {
            use_type_invariant(self);
        }
        if (self.begin as u64) < self.piece_length {
            Some((self.begin, block_length_for_piece(self.piece_length, self.begin)))
        } else {
            None
        }
    }

    /// Puts the block that starts where the next one does into place.
    pub fn add_block(&mut self, block: &[u8])
        requires
            old(self).spec_begin() < old(self).spec_length(),
            block@.len() == spec_block_length(old(self).spec_length(), old(self).spec_begin()),
        ensures
            final(self).spec_index() == old(self).spec_index(),
            final(self).spec_length() == old(self).spec_length(),
            final(self).spec_begin() == old(self).spec_begin() + block@.len(),
            final(self).spec_data() == old(self).spec_data().take(old(self).spec_begin() as int) + block@
                + old(self).spec_data().skip(old(self).spec_begin() + block@.len()),
    {
        proof {
            use_type_invariant(&*self);
        }
        let start = self.begin as usize;
        let n = self.data.len();
        let mut i: usize = 0;
        while i < block.len()
            invariant
                start + block@.len() <= n,
                old(self).piece_length <= u32::MAX,
                old(self).data@.len() == old(self).piece_length,
                old(self).begin <= old(self).piece_length,
                start == old(self).begin,
                start + block@.len() <= old(self).data@.len(),
                self.data@.len() == old(self).data@.len(),
                self.piece_index == old(self).piece_index,
                self.piece_length == old(self).piece_length,
                self.begin == old(self).begin,
                i <= block@.len(),
                forall|j: int| 0 <= j < start ==> self.data@[j] == old(self).data@[j],
                forall|j: int| 0 <= j < i ==> self.data@[start + j] == block@[j],
                forall|j: int| start + i <= j < self.data@.len() ==> self.data@[j] == old(self).data@[j],
            decreases block.len() - i,
        {
            self.data[start + i] = block[i];
            i += 1;
        }
        self.begin = self.begin + block.len() as u32;
        assert(self.data@ =~= old(self).data@.take(start as int) + block@ + old(self).data@.skip(start + block@.len()));
    }

    /// The complete piece, when its SHA-1 is `expected_hash`.
    pub fn finish(self, expected_hash: [u8; 20]) -> (r: Result<Vec<u8>, PeerError>)
        ensures
            sha1(self.spec_data()) == expected_hash@ ==> (r matches Ok(d) && d@ == self.spec_data()),
            sha1(self.spec_data()) != expected_hash@ ==> r == Err::<Vec<u8>, PeerError>(
                PeerError::HashMismatch(self.spec_index()),
            ),
    {
        let digest = sha1_digest(self.data.as_slice());
        if !bytes_equal(&digest, &expected_hash) {
            return Err(PeerError::HashMismatch(self.piece_index));
        }
        Ok(self.data)
    }
}

/// A block that starts inside a piece is not empty, is at most `BLOCK_SIZE` long and
/// ends inside the piece; only the block that ends the piece is shorter.
pub proof fn lemma_block_length(piece_size: u64, begin: u32)
    requires
        begin < piece_size,
    ensures
        0 < spec_block_length(piece_size, begin) <= BLOCK_SIZE,
        begin + spec_block_length(piece_size, begin) <= piece_size,
        spec_block_length(piece_size, begin) < BLOCK_SIZE ==> begin + spec_block_length(piece_size, begin)
            == piece_size,
{
}

} // verus!
