use bitorrentclient::peer::{
    block_length_for_piece, decode_message, encode_message, read_handshake, write_handshake, Cursor,
    PeerMessage,
};

#[test]
fn handshake_roundtrip() {
    let info_hash = [0xAB; 20];
    let peer_id = [0xCD; 20];

    let mut buf = Vec::new();
    write_handshake(&mut buf, info_hash, peer_id).unwrap();

    let mut cursor = Cursor::new(buf);
    let remote = read_handshake(&mut cursor, info_hash).unwrap();
    assert_eq!(remote, peer_id);
}

#[test]
fn handshake_rejects_mismatched_info_hash() {
    let info_hash = [0xAB; 20];
    let peer_id = [0xCD; 20];

    let mut buf = Vec::new();
    write_handshake(&mut buf, info_hash, peer_id).unwrap();

    let mut cursor = Cursor::new(buf);
    let err = read_handshake(&mut cursor, [0xFF; 20]).unwrap_err();
    assert!(err.to_string().contains("info hash"));
}

#[test]
fn encodes_and_decodes_request_message() {
    let encoded = encode_message(&PeerMessage::Request {
        index: 3,
        begin: 0,
        length: 16384,
    })
    .unwrap();
    assert_eq!(&encoded[0..4], &(13u32.to_be_bytes()));
    let decoded = decode_message(&encoded[4..]).unwrap();
    assert_eq!(
        decoded,
        PeerMessage::Request {
            index: 3,
            begin: 0,
            length: 16384,
        }
    );
}

#[test]
fn encodes_and_decodes_piece_message() {
    let encoded = encode_message(&PeerMessage::Piece {
        index: 0,
        begin: 0,
        block: vec![1, 2, 3, 4],
    })
    .unwrap();
    let decoded = decode_message(&encoded[4..]).unwrap();
    assert_eq!(
        decoded,
        PeerMessage::Piece {
            index: 0,
            begin: 0,
            block: vec![1, 2, 3, 4],
        }
    );
}

#[test]
fn block_length_for_last_partial_piece() {
    assert_eq!(block_length_for_piece(14, 0), 14);
    assert_eq!(block_length_for_piece(16384, 0), 16384);
    assert_eq!(block_length_for_piece(20000, 16384), 3616);
}
