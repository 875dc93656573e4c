use bitorrentclient::addr::PeerAddr;
use bitorrentclient::tracker::{
    build_announce_url, parse_announce_response, prepare_announce, AnnounceEvent, AnnounceRequest,
    ResponseRead, TrackerError,
};

fn request() -> AnnounceRequest {
    AnnounceRequest {
        info_hash: [0xAB; 20],
        peer_id: [0xCD; 20],
        port: 6881,
        uploaded: 0,
        downloaded: 0,
        left: 1000,
        event: Some(AnnounceEvent::Started),
    }
}

#[test]
fn build_announce_url_encodes_binary_fields() {
    let url = build_announce_url("http://tracker/announce", &request()).unwrap();
    assert!(url.contains("info_hash="));
    assert!(url.contains("%AB"));
    assert!(url.contains("event=started"));
    assert!(url.contains("compact=1"));
}

#[test]
fn announce_url_exact_text() {
    let url = build_announce_url("http://t/a?x=1", &request()).unwrap();
    let ab = "%AB".repeat(20);
    let cd = "%CD".repeat(20);
    assert_eq!(
        url,
        format!("http://t/a?x=1&info_hash={ab}&peer_id={cd}&port=6881&uploaded=0&downloaded=0&left=1000&compact=1&numwant=50&event=started")
    );
}

#[test]
fn prepare_announce_refuses_other_schemes() {
    let err = prepare_announce("udp://tracker:80", &request()).unwrap_err();
    assert_eq!(err.to_string(), "UDP trackers are not supported yet (got udp://tracker:80)");
    let err = prepare_announce("ftp://tracker", &request()).unwrap_err();
    assert_eq!(err.to_string(), "unsupported tracker URL scheme: ftp://tracker");
    assert!(prepare_announce("https://tracker/announce", &request()).is_ok());
}

#[test]
fn parses_compact_peers() {
    let body: &[u8] = b"d8:intervali60e5:peers6:\x7f\x00\x00\x01\x1a\xe1e";
    match parse_announce_response(body, &[]) {
        ResponseRead::Done(response) => {
            assert_eq!(response.interval, 60);
            assert_eq!(response.peers, vec![PeerAddr::new(127, 0, 0, 1, 6881)]);
        }
        _ => panic!("expected a response"),
    }
}

#[test]
fn parses_dictionary_peers() {
    let body: &[u8] = b"d8:intervali120e5:peersld2:ip13:192.168.1.1004:porti51413eeee";
    let first = parse_announce_response(body, &[]);
    let text = match first {
        ResponseRead::NeedsAddress(text) => text,
        _ => panic!("expected the address text"),
    };
    assert_eq!(text, "192.168.1.100:51413");
    match parse_announce_response(body, &[Some(PeerAddr::new(192, 168, 1, 100, 51413))]) {
        ResponseRead::Done(response) => {
            assert_eq!(response.interval, 120);
            assert_eq!(response.peers, vec![PeerAddr::new(192, 168, 1, 100, 51413)]);
        }
        _ => panic!("expected a response"),
    }
    match parse_announce_response(body, &[None]) {
        ResponseRead::Failed(err) => assert_eq!(err.to_string(), "invalid peer address 192.168.1.100:51413"),
        _ => panic!("expected an error"),
    }
}

#[test]
fn parses_failure_reason() {
    let body: &[u8] = b"d14:failure reason17:invalid info_hashe";
    match parse_announce_response(body, &[]) {
        ResponseRead::Failed(err) => assert!(err.to_string().contains("invalid info_hash")),
        _ => panic!("expected an error"),
    }
}

#[test]
fn response_missing_interval_and_bad_peers() {
    match parse_announce_response(b"d5:peers0:e", &[]) {
        ResponseRead::Failed(err) => assert_eq!(err, TrackerError::MissingInterval),
        _ => panic!("expected an error"),
    }
    match parse_announce_response(b"d8:intervali1e5:peers5:abcdee", &[]) {
        ResponseRead::Failed(err) => assert_eq!(err, TrackerError::BadCompactLength(5)),
        _ => panic!("expected an error"),
    }
    match parse_announce_response(b"d8:intervali1e5:peersi3ee", &[]) {
        ResponseRead::Failed(err) => assert_eq!(err, TrackerError::BadPeers),
        _ => panic!("expected an error"),
    }
    match parse_announce_response(b"d8:intervali4294967296e5:peers0:e", &[]) {
        ResponseRead::Failed(err) => assert_eq!(err, TrackerError::OutOfRangeU32),
        _ => panic!("expected an error"),
    }
    match parse_announce_response(b"", &[]) {
        ResponseRead::Failed(err) => assert_eq!(err, TrackerError::Empty),
        _ => panic!("expected an error"),
    }
}
