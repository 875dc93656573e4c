use bitorrentclient::addr::PeerAddr;
use bitorrentclient::dht::{
    decode_response, encode_bytes, encode_dict_pair, encode_query, parse_compact_nodes,
    parse_bencode_value, parse_compact_peers, BencodeValue, DhtError,
};

#[test]
fn parses_compact_nodes_and_peers() {
    let nodes = parse_compact_nodes(&[
        0, 1, 2, 3, 4, 5, 6, 7, 8, 9, 10, 11, 12, 13, 14, 15, 16, 17, 18, 19, 127, 0, 0, 1, 0x1a,
        0xe1,
    ])
    .unwrap();
    assert_eq!(nodes.len(), 1);
    assert_eq!(nodes[0].addr, PeerAddr::new(127, 0, 0, 1, 6881));

    let peers = parse_compact_peers(&[127, 0, 0, 1, 0x1a, 0xe1]).unwrap();
    assert_eq!(peers, vec![PeerAddr::new(127, 0, 0, 1, 6881)]);
}

#[test]
fn encodes_get_peers_query() {
    let tx = b"aa";
    let node_id = [0x11; 20];
    let info_hash = [0x22; 20];
    let mut args = encode_dict_pair(b"id", &encode_bytes(&node_id));
    args.extend(encode_dict_pair(b"info_hash", &encode_bytes(&info_hash)));
    let packet = encode_query(tx, "get_peers", Ok(args.as_slice())).unwrap();
    assert!(packet.starts_with(b"d"));
    assert!(packet.ends_with(b"e"));
    assert!(packet.windows(9).any(|window| window == b"get_peers"));
}

#[test]
fn query_has_exact_bencode_form() {
    let packet = encode_query(b"aa", "ping", Ok(&b"2:id1:x"[..])).unwrap();
    assert_eq!(packet, b"d1:ad2:id1:xe1:q4:ping1:t2:aa1:y1:qe".to_vec());
}

#[test]
fn decodes_get_peers_response() {
    let packet: &[u8] =
        b"d1:rd2:id20:abcdefghij01234567895:nodes26:abcdefghij0123456789\x7f\x00\x00\x01\x1a\xe16:valuesl6:\x0a\x00\x00\x01\x00\x50ee1:t2:aa1:y1:re";
    let response = decode_response(packet, b"aa").unwrap();
    assert_eq!(response.responder_id, Some(*b"abcdefghij0123456789"));
    assert_eq!(response.nodes.len(), 1);
    assert_eq!(response.nodes[0].addr, PeerAddr::new(127, 0, 0, 1, 6881));
    assert_eq!(response.peers, vec![PeerAddr::new(10, 0, 0, 1, 80)]);
}

#[test]
fn decode_response_errors() {
    assert_eq!(decode_response(b"d1:t2:bb1:y1:re", b"aa").unwrap_err(), DhtError::UnexpectedTransaction);
    assert_eq!(decode_response(b"d1:y1:re", b"aa").unwrap_err(), DhtError::MissingTransaction);
    let err = decode_response(b"d1:eli201e5:Errore1:t2:aa1:y1:ee", b"aa").unwrap_err();
    assert_eq!(err.to_string(), "DHT error 201: Error");
    let err = decode_response(b"d1:t2:aa1:y1:qe", b"aa").unwrap_err();
    assert_eq!(err.to_string(), "expected DHT response, got \"q\"");
    assert_eq!(decode_response(b"le", b"aa").unwrap_err(), DhtError::RootNotDictionary);
    assert_eq!(decode_response(b"d1:t2:aa1:y1:ree", b"aa").unwrap_err(), DhtError::TrailingBytes);
    assert_eq!(decode_response(b"d1:t2:aa1:y1:re", b"aa").unwrap_err(), DhtError::MissingBody);
}

#[test]
fn compact_lists_of_wrong_length_are_refused() {
    assert_eq!(parse_compact_nodes(&[0; 25]).unwrap_err(), DhtError::BadNodesLength);
    assert_eq!(parse_compact_peers(&[0; 7]).unwrap_err(), DhtError::BadPeersLength);
    assert_eq!(
        DhtError::BadPeersLength.to_string(),
        "compact peer info must be a multiple of 6 bytes"
    );
}

#[test]
fn parses_a_nested_value_with_its_length() {
    let (value, len) = parse_bencode_value(b"d1:ai-3e1:bl2:xyeetrailing").unwrap();
    assert_eq!(len, 18);
    assert_eq!(
        value,
        BencodeValue::Dict(vec![
            (b"a".to_vec(), BencodeValue::Int(-3)),
            (b"b".to_vec(), BencodeValue::List(vec![BencodeValue::Bytes(b"xy".to_vec())])),
        ])
    );
    assert_eq!(bitorrentclient::bencode::bencode_value_len(b"d1:ai-3e1:bl2:xyeetrailing"), Ok(18));
}

#[test]
fn a_failed_argument_fill_fails_the_query() {
    let err = encode_query(b"aa", "ping", Err(DhtError::ExpectedBytes)).unwrap_err();
    assert_eq!(err, DhtError::ExpectedBytes);
}
