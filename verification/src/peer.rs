//! The peer wire protocol: the handshake message, message framing, and
//! the session state machine that requests one piece in bounded blocks
//! and verifies the reassembled bytes.
//!
//! Every frame after the handshake is a 4-byte big-endian length, one
//! message-id byte, and a payload of length minus one bytes.  The
//! session is strictly alternating: one Request frame, then one Piece
//! frame, never a second request before the first answer arrived.
use vstd::prelude::*;
use vstd::string::StringSliceAdditionalSpecFns;

use crate::digest::{hex_sep, sha1_digest, sha1_of};
use crate::text::{bytes_eq, lossy_of, utf8_lossy};

verus! {

/// The block size cap: no request asks for more than 16 KiB at once.
pub const BLOCK_SIZE: u32 = 16384;

/// A message of the peer wire protocol.
#[derive(Debug, Clone, Copy, PartialEq, Eq, Structural)]
pub enum PeerMessage {
    Choke,
    Unchoke,
    Interested,
    NotInterested,
    Have,
    Bitfield,
    Request,
    Piece,
    Cancel,
}

/// The wire id of a message.
pub open spec fn spec_message_id(m: PeerMessage) -> u8 {
    match m {
        PeerMessage::Choke => 0,
        PeerMessage::Unchoke => 1,
        PeerMessage::Interested => 2,
        PeerMessage::NotInterested => 3,
        PeerMessage::Have => 4,
        PeerMessage::Bitfield => 5,
        PeerMessage::Request => 6,
        PeerMessage::Piece => 7,
        PeerMessage::Cancel => 8,
    }
}

/// The wire id of a message.
pub fn message_id(m: &PeerMessage) -> (r: u8)
    ensures
        r == spec_message_id(*m),
{
    match m {
        PeerMessage::Choke => 0,
        PeerMessage::Unchoke => 1,
        PeerMessage::Interested => 2,
        PeerMessage::NotInterested => 3,
        PeerMessage::Have => 4,
        PeerMessage::Bitfield => 5,
        PeerMessage::Request => 6,
        PeerMessage::Piece => 7,
        PeerMessage::Cancel => 8,
    }
}

/// The message a wire id denotes; ids above eight denote none.
pub fn message_from_id(id: u8) -> (r: Option<PeerMessage>)
    ensures
        r is Some <==> id <= 8,
        (r matches Some(m) ==> spec_message_id(m) == id),
{
    match id {
        0 => Some(PeerMessage::Choke),
        1 => Some(PeerMessage::Unchoke),
        2 => Some(PeerMessage::Interested),
        3 => Some(PeerMessage::NotInterested),
        4 => Some(PeerMessage::Have),
        5 => Some(PeerMessage::Bitfield),
        6 => Some(PeerMessage::Request),
        7 => Some(PeerMessage::Piece),
        8 => Some(PeerMessage::Cancel),
        _ => None,
    }
}

/// A 32-bit value as four big-endian bytes.
pub open spec fn be32(n: int) -> Seq<u8> {
    seq![
        ((n / 0x1000000) % 256) as u8,
        ((n / 0x10000) % 256) as u8,
        ((n / 256) % 256) as u8,
        (n % 256) as u8,
    ]
}

/// The value of four big-endian bytes.
pub open spec fn u32_of_be(s: Seq<u8>) -> int {
    (s[0] as int) * 0x1000000 + (s[1] as int) * 0x10000 + (s[2] as int) * 256 + (s[3] as int)
}

/// Appends the four big-endian bytes of `n` to `out`.
pub fn be32_into(n: u32, out: &mut Vec<u8>)
    ensures
        final(out)@ == old(out)@ + be32(n as int),
{
    out.push(((n / 0x1000000) % 256) as u8);
    out.push(((n / 0x10000) % 256) as u8);
    out.push(((n / 256) % 256) as u8);
    out.push((n % 256) as u8);
    proof {
        assert(out@ =~= old(out)@ + be32(n as int));
    }
}

/// The value of a 4-byte length prefix.
pub fn frame_length(prefix: &Vec<u8>) -> (r: u32)
    requires
        prefix@.len() == 4,
    ensures
        r as int == u32_of_be(prefix@),
{
    (prefix[0] as u32) * 0x1000000 + (prefix[1] as u32) * 0x10000 + (prefix[2] as u32) * 256 + (
    prefix[3] as u32)
}

/// A whole frame: 4-byte big-endian length, the message id, the
/// payload.  The length counts the id byte and the payload.
pub open spec fn frame_bytes(id: u8, payload: Seq<u8>) -> Seq<u8> {
    be32(payload.len() as int + 1) + seq![id] + payload
}

/// Builds the frame that carries `m` with `payload`.
pub fn encode_frame(m: &PeerMessage, payload: &Vec<u8>) -> (r: Vec<u8>)
    requires
        payload@.len() + 1 <= u32::MAX,
    ensures
        r@ == frame_bytes(spec_message_id(*m), payload@),
{
    let mut out: Vec<u8> = Vec::new();
    let n: u32 = payload.len() as u32 + 1;
    be32_into(n, &mut out);
    out.push(message_id(m));
    crate::encode::push_bytes(&mut out, payload);
    proof {
        assert(out@ =~= frame_bytes(spec_message_id(*m), payload@));
    }
    out
}

/// A violation of the peer wire protocol.
#[derive(Debug, Clone, Copy, PartialEq, Eq, Structural)]
pub enum ProtocolError {
    /// A frame arrived whose id is not the one the sequence demands.
    UnexpectedMessage { expected: u8, actual: u8 },
    /// A frame id above eight, which the protocol does not define.
    UnknownMessage { id: u8 },
    /// A Piece frame too short to hold its index and offset.
    ShortPayload,
    /// A Piece frame echoing an index or offset other than the one just
    /// requested.
    UnexpectedBlock,
    /// A Piece frame whose data is not exactly the requested length.
    WrongBlockLength,
    /// A frame after the session already completed or aborted.
    SessionOver,
}

/// Splits a received message into its id and payload; ids above eight
/// are a protocol violation.
pub fn parse_frame(message: &Vec<u8>) -> (r: Result<(PeerMessage, Vec<u8>), ProtocolError>)
    requires
        message@.len() >= 1,
    ensures
        r is Ok <==> message@[0] <= 8,
        (r matches Ok(p) ==> spec_message_id(p.0) == message@[0] && p.1@ == message@.subrange(
            1,
            message@.len() as int,
        )),
        (r matches Err(e) ==> e == (ProtocolError::UnknownMessage { id: message@[0] })),
{
    let id = message[0];
    let m = match message_from_id(id) {
        Some(m) => m,
        None => {
            return Err(ProtocolError::UnknownMessage { id });
        },
    };
    let mut payload: Vec<u8> = Vec::new();
    let mut t: usize = 1;
    while t < message.len()
        invariant
            1 <= t <= message@.len(),
            payload@ == message@.subrange(1, t as int),
        decreases message@.len() - t,
    {
        payload.push(message[t]);
        proof {
            assert(payload@ =~= message@.subrange(1, t + 1 as int));
        }
        t = t + 1;
    }
    Ok((m, payload))
}

/// The fixed 68-byte handshake: the tag length, the protocol tag, eight
/// reserved zero bytes, the 20-byte content identifier, the caller's
/// 20-byte self-identifier.
pub open spec fn handshake_bytes(info_hash: Seq<u8>, peer_id: Seq<u8>) -> Seq<u8> {
    seq![19u8] + "BitTorrent protocol".spec_bytes() + seq![0u8, 0u8, 0u8, 0u8, 0u8, 0u8, 0u8, 0u8]
        + info_hash + peer_id
}

/// Builds the handshake message for a content identifier and a
/// self-identifier.
pub fn handshake_message(info_hash: &Vec<u8>, peer_id: &Vec<u8>) -> (r: Vec<u8>)
    requires
        info_hash@.len() == 20,
        peer_id@.len() == 20,
    ensures
        r@ == handshake_bytes(info_hash@, peer_id@),
        r@.len() == 68,
{
    let mut out: Vec<u8> = Vec::new();
    out.push(19);
    crate::text::push_str_bytes(&mut out, "BitTorrent protocol");
    let mut z: usize = 0;
    while z < 8
        invariant
            z <= 8,
            out@ == seq![19u8] + "BitTorrent protocol".spec_bytes() + Seq::new(
                z as nat,
                |i: int| 0u8,
            ),
        decreases 8 - z,
    {
        out.push(0);
        proof {
            assert(out@ =~= seq![19u8] + "BitTorrent protocol".spec_bytes() + Seq::new(
                (z + 1) as nat,
                |i: int| 0u8,
            ));
        }
        z = z + 1;
    }
    crate::encode::push_bytes(&mut out, info_hash);
    crate::encode::push_bytes(&mut out, peer_id);
    proof {
        assert(Seq::new(8nat, |i: int| 0u8) =~= seq![0u8, 0u8, 0u8, 0u8, 0u8, 0u8, 0u8, 0u8]);
        assert(out@ =~= handshake_bytes(info_hash@, peer_id@));
        reveal_strlit("BitTorrent protocol");
        assert(vstd::utf8::is_ascii_chars("BitTorrent protocol"@));
        vstd::utf8::is_ascii_chars_encode_utf8("BitTorrent protocol"@);
        assert("BitTorrent protocol".spec_bytes().len() == 19);
    }
    out
}

/// Whether a 68-byte handshake reply echoes the content identifier
/// that was sent: bytes 28 to 47 of the reply.  A session should abort
/// on a mismatch, since the peer is then serving different content.
pub fn handshake_reply_matches(response: &Vec<u8>, info_hash: &Vec<u8>) -> (r: bool)
    requires
        response@.len() == 68,
        info_hash@.len() == 20,
    ensures
        r == (response@.subrange(28, 48) == info_hash@),
{
    let mut t: usize = 0;
    while t < 20
        invariant
            t <= 20,
            response@.len() == 68,
            info_hash@.len() == 20,
            forall|m: int| 0 <= m < t ==> response@[28 + m] == info_hash@[m],
        decreases 20 - t,
    {
        if response[28 + t] != info_hash[t] {
            proof {
                assert(response@.subrange(28, 48)[t as int] != info_hash@[t as int]);
            }
            return false;
        }
        t = t + 1;
    }
    proof {
        assert(response@.subrange(28, 48) =~= info_hash@);
    }
    true
}

/// The remote self-identifier from a 68-byte handshake reply, rendered
/// as lowercase hexadecimal: the reply's last 20 bytes.
pub fn handshake_reply_peer_id(response: &Vec<u8>) -> (r: String)
    requires
        response@.len() == 68,
    ensures
        r@ == crate::text::ascii_chars_of(hex_sep(response@.subrange(48, 68), Seq::<u8>::empty())),
{
    let mut out: Vec<u8> = Vec::new();
    crate::digest::hex_range_into(&mut out, response, 48, 68, "");
    proof {
        reveal_strlit("");
        assert(""@.len() == 0);
        assert("".spec_bytes() =~= Seq::<u8>::empty());
        assert(out@ =~= hex_sep(response@.subrange(48, 68), Seq::<u8>::empty()));
        crate::digest::lemma_hex_ascii(response@.subrange(48, 68), Seq::<u8>::empty(), 0);
    }
    utf8_lossy(&out)
}

/// Where a session stands in the negotiation and transfer sequence.
#[derive(Debug, Clone, Copy, PartialEq, Eq, Structural)]
pub enum SessionState {
    /// Waiting for the peer's Bitfield frame.
    AwaitingBitfield,
    /// Interested was sent; waiting for Unchoke.
    AwaitingUnchoke,
    /// A Request frame is outstanding; waiting for its Piece frame.
    Requesting,
    /// Every block arrived; the piece buffer is full.
    Complete,
    /// A protocol violation ended the session.
    Aborted,
}

/// What the caller must do next after handing a frame to the session.
#[derive(Debug, Clone, Copy, PartialEq, Eq, Structural)]
pub enum SessionAction {
    /// Send a payload-less Interested frame.
    SendInterested,
    /// Send a Request frame for the given block.
    SendRequest { index: u32, offset: u32, length: u32 },
    /// The piece is fully assembled; nothing more to send.
    Finished,
}

/// The length of the block that starts at `offset`: the block size cap,
/// or what remains of the piece if that is less.
pub open spec fn spec_block_len(piece_size: int, offset: int) -> int {
    if piece_size - offset < 16384 {
        piece_size - offset
    } else {
        16384
    }
}

/// One piece's download: the state machine that drives the strict
/// Bitfield, Interested, Unchoke, Request/Piece sequence and reassembles
/// the piece in order.  The caller performs the I/O: it hands every
/// received frame to `on_frame` and sends what the returned action says.
#[derive(Debug)]
pub struct PieceDownload {
    pub piece_index: u32,
    pub piece_size: u32,
    pub state: SessionState,
    pub buffer: Vec<u8>,
}

impl PieceDownload {
    /// The session invariant: the buffer never outgrows the piece, is
    /// empty before the first request, and is full exactly when the
    /// session completed.
    pub open spec fn wf(self) -> bool {
        &&& self.piece_size >= 1
        &&& self.buffer@.len() <= self.piece_size
        &&& (self.state is AwaitingBitfield ==> self.buffer@.len() == 0)
        &&& (self.state is AwaitingUnchoke ==> self.buffer@.len() == 0)
        &&& (self.state is Requesting ==> self.buffer@.len() < self.piece_size)
        &&& (self.state is Complete ==> self.buffer@.len() == self.piece_size)
    }

    /// Starts a session for one piece.
    pub fn new(piece_index: u32, piece_size: u32) -> (r: Self)
        requires
            piece_size >= 1,
        ensures
            r.wf(),
            r.piece_index == piece_index,
            r.piece_size == piece_size,
            r.state is AwaitingBitfield,
            r.buffer@ == Seq::<u8>::empty(),
    {
        PieceDownload { piece_index, piece_size, state: SessionState::AwaitingBitfield, buffer: Vec::new() }
    }

    /// Feeds one received frame to the session and says what to do
    /// next.  The sequence is strict: Bitfield, then Unchoke after the
    /// Interested that the caller sends, then one Piece frame per
    /// Request.  A Piece frame must echo the requested index and offset
    /// and carry exactly the requested length; any violation aborts the
    /// session, and an aborted or completed session accepts no frame.
    pub fn on_frame(&mut self, id: u8, payload: &Vec<u8>) -> (r: Result<
        SessionAction,
        ProtocolError,
    >)
        requires
            old(self).wf(),
        ensures
            final(self).wf(),
            final(self).piece_index == old(self).piece_index,
            final(self).piece_size == old(self).piece_size,
            r is Err ==> final(self).buffer@ == old(self).buffer@,
            (old(self).state is AwaitingBitfield ==> (if id == 5 {
                &&& r == Ok::<SessionAction, ProtocolError>(SessionAction::SendInterested)
                &&& final(self).state is AwaitingUnchoke
                &&& final(self).buffer@ == old(self).buffer@
            } else {
                &&& r == Err::<SessionAction, ProtocolError>(
                    ProtocolError::UnexpectedMessage { expected: 5, actual: id },
                )
                &&& final(self).state is Aborted
            })),
            (old(self).state is AwaitingUnchoke ==> (if id == 1 {
                &&& r == Ok::<SessionAction, ProtocolError>(
                    SessionAction::SendRequest {
                        index: old(self).piece_index,
                        offset: 0,
                        length: spec_block_len(old(self).piece_size as int, 0) as u32,
                    },
                )
                &&& final(self).state is Requesting
                &&& final(self).buffer@ == old(self).buffer@
            } else {
                &&& r == Err::<SessionAction, ProtocolError>(
                    ProtocolError::UnexpectedMessage { expected: 1, actual: id },
                )
                &&& final(self).state is Aborted
            })),
            (old(self).state is Requesting ==> {
                let off = old(self).buffer@.len() as int;
                let blen = spec_block_len(old(self).piece_size as int, off);
                if id != 7 {
                    &&& r == Err::<SessionAction, ProtocolError>(
                        ProtocolError::UnexpectedMessage { expected: 7, actual: id },
                    )
                    &&& final(self).state is Aborted
                } else if payload@.len() < 8 {
                    &&& r == Err::<SessionAction, ProtocolError>(ProtocolError::ShortPayload)
                    &&& final(self).state is Aborted
                } else if u32_of_be(payload@.subrange(0, 4)) != old(self).piece_index
                    || u32_of_be(payload@.subrange(4, 8)) != off {
                    &&& r == Err::<SessionAction, ProtocolError>(ProtocolError::UnexpectedBlock)
                    &&& final(self).state is Aborted
                } else if payload@.len() - 8 != blen {
                    &&& r == Err::<SessionAction, ProtocolError>(ProtocolError::WrongBlockLength)
                    &&& final(self).state is Aborted
                } else {
                    &&& final(self).buffer@ == old(self).buffer@ + payload@.subrange(
                        8,
                        payload@.len() as int,
                    )
                    &&& (if off + blen == old(self).piece_size {
                        &&& r == Ok::<SessionAction, ProtocolError>(SessionAction::Finished)
                        &&& final(self).state is Complete
                    } else {
                        &&& r == Ok::<SessionAction, ProtocolError>(
                            SessionAction::SendRequest {
                                index: old(self).piece_index,
                                offset: (off + blen) as u32,
                                length: spec_block_len(
                                    old(self).piece_size as int,
                                    off + blen,
                                ) as u32,
                            },
                        )
                        &&& final(self).state is Requesting
                    })
                }
            }),
            ((old(self).state is Complete || old(self).state is Aborted) ==> {
                &&& r == Err::<SessionAction, ProtocolError>(ProtocolError::SessionOver)
                &&& final(self).state == old(self).state
            }),
    {
        match self.state {
            SessionState::AwaitingBitfield => {
                if id == 5 {
                    self.state = SessionState::AwaitingUnchoke;
                    Ok(SessionAction::SendInterested)
                } else {
                    self.state = SessionState::Aborted;
                    Err(ProtocolError::UnexpectedMessage { expected: 5, actual: id })
                }
            },
            SessionState::AwaitingUnchoke => {
                if id == 1 {
                    self.state = SessionState::Requesting;
                    let length = if self.piece_size < BLOCK_SIZE {
                        self.piece_size
                    } else {
                        BLOCK_SIZE
                    };
                    Ok(SessionAction::SendRequest { index: self.piece_index, offset: 0, length })
                } else {
                    self.state = SessionState::Aborted;
                    Err(ProtocolError::UnexpectedMessage { expected: 1, actual: id })
                }
            },
            SessionState::Requesting => {
                let off: u32 = self.buffer.len() as u32;
                let remaining: u32 = self.piece_size - off;
                let blen: u32 = if remaining < BLOCK_SIZE {
                    remaining
                } else {
                    BLOCK_SIZE
                };
                if id != 7 {
                    self.state = SessionState::Aborted;
                    return Err(ProtocolError::UnexpectedMessage { expected: 7, actual: id });
                }
                if payload.len() < 8 {
                    self.state = SessionState::Aborted;
                    return Err(ProtocolError::ShortPayload);
                }
                let echoed_index = (payload[0] as u32) * 0x1000000 + (payload[1] as u32) * 0x10000
                    + (payload[2] as u32) * 256 + (payload[3] as u32);
                let echoed_offset = (payload[4] as u32) * 0x1000000 + (payload[5] as u32) * 0x10000
                    + (payload[6] as u32) * 256 + (payload[7] as u32);
                proof {
                    assert(payload@.subrange(0, 4)[0] == payload@[0]);
                    assert(payload@.subrange(0, 4)[1] == payload@[1]);
                    assert(payload@.subrange(0, 4)[2] == payload@[2]);
                    assert(payload@.subrange(0, 4)[3] == payload@[3]);
                    assert(payload@.subrange(4, 8)[0] == payload@[4]);
                    assert(payload@.subrange(4, 8)[1] == payload@[5]);
                    assert(payload@.subrange(4, 8)[2] == payload@[6]);
                    assert(payload@.subrange(4, 8)[3] == payload@[7]);
                }
                if echoed_index != self.piece_index || echoed_offset != off {
                    self.state = SessionState::Aborted;
                    return Err(ProtocolError::UnexpectedBlock);
                }
                if payload.len() - 8 != blen as usize {
                    self.state = SessionState::Aborted;
                    return Err(ProtocolError::WrongBlockLength);
                }
                let mut t: usize = 8;
                while t < payload.len()
                    invariant
                        8 <= t <= payload@.len(),
                        self.piece_index == old(self).piece_index,
                        self.piece_size == old(self).piece_size,
                        self.state == old(self).state,
                        self.buffer@ == old(self).buffer@ + payload@.subrange(8, t as int),
                        old(self).buffer@.len() + payload@.len() - 8 <= self.piece_size,
                    decreases payload@.len() - t,
                {
                    let b = payload[t];
                    self.buffer.push(b);
                    proof {
                        assert(self.buffer@ =~= old(self).buffer@ + payload@.subrange(
                            8,
                            t + 1 as int,
                        ));
                    }
                    t = t + 1;
                }
                if self.buffer.len() == self.piece_size as usize {
                    self.state = SessionState::Complete;
                    Ok(SessionAction::Finished)
                } else {
                    let new_off: u32 = self.buffer.len() as u32;
                    let new_remaining: u32 = self.piece_size - new_off;
                    let new_len: u32 = if new_remaining < BLOCK_SIZE {
                        new_remaining
                    } else {
                        BLOCK_SIZE
                    };
                    Ok(
                        SessionAction::SendRequest {
                            index: self.piece_index,
                            offset: new_off,
                            length: new_len,
                        },
                    )
                }
            },
            SessionState::Complete => Err(ProtocolError::SessionOver),
            SessionState::Aborted => Err(ProtocolError::SessionOver),
        }
    }
}

/// A reassembled piece whose digest does not match the expected piece
/// digest.  The assembled bytes are kept, unchanged, for the caller to
/// keep or discard.
#[derive(Debug, PartialEq, Eq)]
pub struct IntegrityError {
    pub data: Vec<u8>,
}

/// Verifies an assembled piece against its expected 20-byte digest.
/// The bytes come back unchanged either way: as the success value when
/// the digest matches, inside the error when it does not.
pub fn verify_piece(data: Vec<u8>, expected: &Vec<u8>) -> (r: Result<Vec<u8>, IntegrityError>)
    ensures
        r is Ok <==> sha1_of(data@) == expected@,
        (r matches Ok(d) ==> d@ == data@),
        (r matches Err(e) ==> e.data@ == data@),
{
    let digest = sha1_digest(&data);
    if bytes_eq(&digest, expected) {
        Ok(data)
    } else {
        Err(IntegrityError { data })
    }
}

} // verus!
