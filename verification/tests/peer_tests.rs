use bittorrent::peer::{
    encode_frame, frame_length, handshake_message, handshake_reply_matches,
    handshake_reply_peer_id, message_from_id,
    message_id, parse_frame, verify_piece, PeerMessage, PieceDownload, ProtocolError,
    SessionAction, SessionState,
};

fn hex_to_bytes(s: &str) -> Vec<u8> {
    let digits: Vec<u8> = s
        .bytes()
        .map(|b| match b {
            b'0'..=b'9' => b - b'0',
            b'a'..=b'f' => b - b'a' + 10,
            _ => panic!("not a hex digit"),
        })
        .collect();
    digits.chunks(2).map(|p| p[0] * 16 + p[1]).collect()
}

fn piece_payload(index: u32, offset: u32, data: &[u8]) -> Vec<u8> {
    let mut p = Vec::new();
    p.extend_from_slice(&index.to_be_bytes());
    p.extend_from_slice(&offset.to_be_bytes());
    p.extend_from_slice(data);
    p
}

#[test]
fn message_ids_round_trip() {
    for id in 0u8..=8 {
        let m = message_from_id(id).unwrap();
        assert_eq!(message_id(&m), id);
    }
    assert_eq!(message_from_id(5), Some(PeerMessage::Bitfield));
    assert_eq!(message_from_id(9), None);
    assert_eq!(message_from_id(255), None);
}

#[test]
fn frame_encoding() {
    // a payload-less frame: length 1, then the id
    assert_eq!(
        encode_frame(&PeerMessage::Interested, &Vec::new()),
        vec![0, 0, 0, 1, 2]
    );
    // a Request frame with a 12-byte payload: length 13
    let payload = vec![9u8; 12];
    let frame = encode_frame(&PeerMessage::Request, &payload);
    assert_eq!(&frame[0..5], &[0, 0, 0, 13, 6]);
    assert_eq!(&frame[5..], &payload[..]);
}

#[test]
fn frame_parsing() {
    assert_eq!(frame_length(&vec![0, 0, 0, 13]), 13);
    assert_eq!(frame_length(&vec![1, 2, 3, 4]), 0x01020304);
    let (m, payload) = parse_frame(&vec![7, 1, 2, 3]).unwrap();
    assert_eq!(m, PeerMessage::Piece);
    assert_eq!(payload, vec![1, 2, 3]);
    let (m, payload) = parse_frame(&vec![5]).unwrap();
    assert_eq!(m, PeerMessage::Bitfield);
    assert!(payload.is_empty());
    // ids above eight are a protocol violation
    assert_eq!(
        parse_frame(&vec![9, 1]),
        Err(ProtocolError::UnknownMessage { id: 9 })
    );
}

#[test]
fn handshake_layout() {
    let info_hash = hex_to_bytes("d69f91e6b2ae4c542468d1073a71d4ea13879a7f");
    let peer_id = b"00112233445566778899".to_vec();
    let msg = handshake_message(&info_hash, &peer_id);
    assert_eq!(msg.len(), 68);
    assert_eq!(msg[0], 19);
    assert_eq!(&msg[1..20], b"BitTorrent protocol");
    assert_eq!(&msg[20..28], &[0u8; 8]);
    assert_eq!(&msg[28..48], &info_hash[..]);
    assert_eq!(&msg[48..68], &peer_id[..]);
}

#[test]
fn handshake_reply_identifier_check() {
    let info_hash = hex_to_bytes("d69f91e6b2ae4c542468d1073a71d4ea13879a7f");
    let peer_id = b"00112233445566778899".to_vec();
    let reply = handshake_message(&info_hash, &peer_id);
    assert!(handshake_reply_matches(&reply, &info_hash));
    let other_hash = hex_to_bytes("0000000000000000000000000000000000000000");
    assert!(!handshake_reply_matches(&reply, &other_hash));
}

#[test]
fn handshake_reply_hex() {
    let mut response = vec![0u8; 48];
    response.extend_from_slice(&hex_to_bytes("2d524e302e302e302d2e99080f6fd8278cf6e0f2"));
    assert_eq!(
        handshake_reply_peer_id(&response),
        "2d524e302e302e302d2e99080f6fd8278cf6e0f2"
    );
}

#[test]
fn block_loop_two_requests() {
    // a piece of 32768 bytes takes exactly two 16384-byte blocks, at
    // contiguous non-overlapping offsets 0 and 16384
    let mut dl = PieceDownload::new(0, 32768);
    assert_eq!(dl.state, SessionState::AwaitingBitfield);

    let action = dl.on_frame(5, &Vec::new()).unwrap();
    assert_eq!(action, SessionAction::SendInterested);
    assert_eq!(dl.state, SessionState::AwaitingUnchoke);

    let action = dl.on_frame(1, &Vec::new()).unwrap();
    assert_eq!(
        action,
        SessionAction::SendRequest { index: 0, offset: 0, length: 16384 }
    );

    let action = dl.on_frame(7, &piece_payload(0, 0, &[7u8; 16384])).unwrap();
    assert_eq!(
        action,
        SessionAction::SendRequest { index: 0, offset: 16384, length: 16384 }
    );

    let action = dl.on_frame(7, &piece_payload(0, 16384, &[9u8; 16384])).unwrap();
    assert_eq!(action, SessionAction::Finished);
    assert_eq!(dl.state, SessionState::Complete);
    assert_eq!(dl.buffer.len(), 32768);
    assert_eq!(&dl.buffer[0..16384], &[7u8; 16384][..]);
    assert_eq!(&dl.buffer[16384..], &[9u8; 16384][..]);
}

#[test]
fn block_loop_short_last_block() {
    // 26527 bytes: one full block, then the 10143-byte remainder
    let mut dl = PieceDownload::new(2, 26527);
    dl.on_frame(5, &Vec::new()).unwrap();
    let action = dl.on_frame(1, &Vec::new()).unwrap();
    assert_eq!(
        action,
        SessionAction::SendRequest { index: 2, offset: 0, length: 16384 }
    );
    let action = dl.on_frame(7, &piece_payload(2, 0, &[1u8; 16384])).unwrap();
    assert_eq!(
        action,
        SessionAction::SendRequest { index: 2, offset: 16384, length: 10143 }
    );
    let action = dl.on_frame(7, &piece_payload(2, 16384, &[2u8; 10143])).unwrap();
    assert_eq!(action, SessionAction::Finished);
    assert_eq!(dl.buffer.len(), 26527);
}

#[test]
fn wrong_offset_aborts_session() {
    // a Piece frame echoing an offset other than the one requested
    // aborts the session, and no further request is made
    let mut dl = PieceDownload::new(0, 32768);
    dl.on_frame(5, &Vec::new()).unwrap();
    dl.on_frame(1, &Vec::new()).unwrap();
    let r = dl.on_frame(7, &piece_payload(0, 512, &[7u8; 16384]));
    assert_eq!(r, Err(ProtocolError::UnexpectedBlock));
    assert_eq!(dl.state, SessionState::Aborted);
    // the session accepts nothing more
    let r = dl.on_frame(7, &piece_payload(0, 0, &[7u8; 16384]));
    assert_eq!(r, Err(ProtocolError::SessionOver));
    assert_eq!(dl.state, SessionState::Aborted);
}

#[test]
fn wrong_index_aborts_session() {
    let mut dl = PieceDownload::new(3, 100);
    dl.on_frame(5, &Vec::new()).unwrap();
    dl.on_frame(1, &Vec::new()).unwrap();
    let r = dl.on_frame(7, &piece_payload(4, 0, &[7u8; 100]));
    assert_eq!(r, Err(ProtocolError::UnexpectedBlock));
    assert_eq!(dl.state, SessionState::Aborted);
}

#[test]
fn negotiation_violations_abort() {
    // something other than Bitfield first
    let mut dl = PieceDownload::new(0, 100);
    assert_eq!(
        dl.on_frame(4, &Vec::new()),
        Err(ProtocolError::UnexpectedMessage { expected: 5, actual: 4 })
    );
    assert_eq!(dl.state, SessionState::Aborted);

    // something other than Unchoke second
    let mut dl = PieceDownload::new(0, 100);
    dl.on_frame(5, &Vec::new()).unwrap();
    assert_eq!(
        dl.on_frame(0, &Vec::new()),
        Err(ProtocolError::UnexpectedMessage { expected: 1, actual: 0 })
    );
    assert_eq!(dl.state, SessionState::Aborted);

    // something other than Piece inside the block loop
    let mut dl = PieceDownload::new(0, 100);
    dl.on_frame(5, &Vec::new()).unwrap();
    dl.on_frame(1, &Vec::new()).unwrap();
    assert_eq!(
        dl.on_frame(4, &Vec::new()),
        Err(ProtocolError::UnexpectedMessage { expected: 7, actual: 4 })
    );
    assert_eq!(dl.state, SessionState::Aborted);
}

#[test]
fn short_and_missized_blocks_abort() {
    // a Piece payload too short to hold index and offset
    let mut dl = PieceDownload::new(0, 100);
    dl.on_frame(5, &Vec::new()).unwrap();
    dl.on_frame(1, &Vec::new()).unwrap();
    assert_eq!(
        dl.on_frame(7, &vec![0, 0, 0]),
        Err(ProtocolError::ShortPayload)
    );

    // a short delivery is a protocol error, not silently tolerated
    let mut dl = PieceDownload::new(0, 100);
    dl.on_frame(5, &Vec::new()).unwrap();
    dl.on_frame(1, &Vec::new()).unwrap();
    assert_eq!(
        dl.on_frame(7, &piece_payload(0, 0, &[7u8; 60])),
        Err(ProtocolError::WrongBlockLength)
    );
    assert_eq!(dl.state, SessionState::Aborted);
}

#[test]
fn verify_piece_integrity() {
    // SHA-1 of "hello"
    let expected = hex_to_bytes("aaf4c61ddcc5e8a2dabede0f3b482cd9aea9434d");
    let good = verify_piece(b"hello".to_vec(), &expected).unwrap();
    assert_eq!(good, b"hello".to_vec());

    // a digest mismatch is an error, but the assembled bytes come back
    // unchanged inside it
    let wrong = hex_to_bytes("0000000000000000000000000000000000000000");
    let err = verify_piece(b"hello".to_vec(), &wrong).unwrap_err();
    assert_eq!(err.data, b"hello".to_vec());

    // SHA-1 of the empty input
    let empty_digest = hex_to_bytes("da39a3ee5e6b4b0d3255bfef95601890afd80709");
    assert!(verify_piece(Vec::new(), &empty_digest).is_ok());
}
