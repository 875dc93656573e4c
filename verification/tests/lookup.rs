use bitorrentclient::addr::PeerAddr;
use bitorrentclient::dht::{DhtNode, NodeId, QueryResponse};
use bitorrentclient::lookup::{sort_queue_by_distance, Lookup, LookupStep};

fn addr(last: u8) -> PeerAddr {
    PeerAddr::new(10, 0, 0, last, 6881)
}

#[test]
fn queue_is_sorted_by_distance_unknown_last() {
    let target = [0u8; 20];
    let mut queue = vec![addr(1), addr(2), addr(3), addr(4)];
    let mut far = [0u8; 20];
    far[0] = 0x80;
    let mut near = [0u8; 20];
    near[19] = 1;
    let known = vec![
        DhtNode { id: NodeId(far), addr: addr(2) },
        DhtNode { id: NodeId(near), addr: addr(4) },
    ];
    sort_queue_by_distance(&mut queue, &known, &target);
    assert_eq!(queue, vec![addr(4), addr(2), addr(1), addr(3)]);
}

#[test]
fn lookup_asks_each_node_once_and_collects_peers() {
    let mut lookup = Lookup::new([0; 20], vec![addr(1), addr(1), addr(2)]);
    assert_eq!(lookup.next(false), LookupStep::Query(addr(1)));
    let response = QueryResponse {
        responder_id: Some([7; 20]),
        nodes: vec![DhtNode { id: NodeId([1; 20]), addr: addr(3) }, DhtNode { id: NodeId([9; 20]), addr: addr(1) }],
        peers: vec![addr(100), addr(100), addr(101)],
    };
    assert!(!lookup.record(addr(1), response));
    assert_eq!(lookup.peers(), &vec![addr(100), addr(101)]);
    // the queue is now [1, 2, 3] ordered by distance: 3 is known, the others not
    assert_eq!(lookup.next(false), LookupStep::Query(addr(3)));
    assert_eq!(lookup.next(false), LookupStep::Skip);
    assert_eq!(lookup.next(true), LookupStep::Finished);
    assert_eq!(lookup.next(false), LookupStep::Finished);
    assert_eq!(lookup.finish().unwrap(), vec![addr(100), addr(101)]);
    assert!(Lookup::new([0; 20], vec![]).finish().is_err());
}
