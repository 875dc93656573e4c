use bitorrentclient::addr::PeerAddr;
use bitorrentclient::cli::{
    block_report, connect_plan, download_plan, dht_step, mode, request_line, summary_lines,
    tracker_step, Cli, CliError, Mode, TrackerStep,
};
use bitorrentclient::torrent::TorrentMetadata;
use bitorrentclient::DiscoverConfig;

fn cli() -> Cli {
    Cli {
        torrent: "x.torrent".into(),
        port: 6881,
        no_announce: false,
        no_dht: false,
        download: false,
        output: None,
        connect: false,
        peer: None,
    }
}

#[test]
fn download_and_connect_exclude_each_other() {
    let mut c = cli();
    assert_eq!(mode(&c), Ok(Mode::Info));
    c.download = true;
    assert_eq!(mode(&c), Ok(Mode::Download));
    c.peer = Some(PeerAddr::new(1, 2, 3, 4, 5));
    assert_eq!(mode(&c), Err(CliError::BothModes));
    assert_eq!(CliError::BothModes.to_string(), "use either --download or --connect, not both");
    c.download = false;
    assert_eq!(mode(&c), Ok(Mode::Connect));
}

#[test]
fn tracker_and_dht_steps() {
    let mut c = cli();
    assert_eq!(
        tracker_step(&c, true),
        TrackerStep::Announce(DiscoverConfig { use_tracker: true, use_dht: false, port: 6881 })
    );
    assert_eq!(tracker_step(&c, false), TrackerStep::NoTracker);
    assert_eq!(
        dht_step(&c, Mode::Info, 0),
        Some(DiscoverConfig { use_tracker: false, use_dht: true, port: 6881 })
    );
    assert_eq!(dht_step(&c, Mode::Info, 3), None);
    c.no_announce = true;
    assert_eq!(tracker_step(&c, true), TrackerStep::Skip);
    assert_eq!(dht_step(&c, Mode::Info, 0), None);
    assert!(dht_step(&c, Mode::Download, 0).is_some());
    c.no_dht = true;
    assert_eq!(dht_step(&c, Mode::Download, 0), None);
}

#[test]
fn download_and_connect_plans() {
    let mut c = cli();
    assert_eq!(download_plan(&c, "name", vec![]).unwrap_err(), CliError::NoPeers);
    let peer = PeerAddr::new(1, 2, 3, 4, 5);
    let (dir, peers) = download_plan(&c, "name", vec![peer]).unwrap();
    assert_eq!(dir, "name");
    assert_eq!(peers, vec![peer]);
    c.output = Some("out".into());
    assert_eq!(download_plan(&c, "name", vec![peer]).unwrap().0, "out");
    assert_eq!(connect_plan(&c, vec![peer], 0, 16).unwrap_err(), CliError::NoData);
    let plan = connect_plan(&c, vec![peer], 20000, 32768).unwrap();
    assert_eq!((plan.piece_index, plan.begin, plan.length), (0, 0, 16384));
    assert_eq!(request_line(&plan), "Requesting piece 0, offset 0, length 16384 bytes");
    c.peer = Some(PeerAddr::new(9, 9, 9, 9, 9));
    assert_eq!(connect_plan(&c, vec![], 100, 16).unwrap().peers, vec![PeerAddr::new(9, 9, 9, 9, 9)]);
}

#[test]
fn block_reports() {
    assert_eq!(block_report(b"hello"), "Data (ascii): hello");
    assert_eq!(block_report(&[0xff, 0x00]), "Data (hex):   ff00");
}

#[test]
fn summary_of_single_file_torrent() {
    let data: &[u8] =
        b"d8:announce14:http://tracker4:infod6:lengthi1000e4:name4:test12:piece lengthi32768e6:pieces20:aaaaaaaaaaaaaaaaaaaaee";
    let metadata = TorrentMetadata::from_bytes(data).unwrap();
    let lines = summary_lines(&metadata, 1000);
    assert_eq!(lines[0], "Name:         test");
    assert_eq!(lines[1], "Announce:     http://tracker");
    assert!(lines[2].starts_with("Info hash:    "));
    assert_eq!(lines[2].len(), 14 + 40);
    assert_eq!(lines[3], "Total size:   1000 bytes");
    assert_eq!(lines[4], "Piece length: 32768 bytes");
    assert_eq!(lines[5], "Piece count:  1");
    assert_eq!(lines[6], "Files:");
    assert_eq!(lines[7], "  - test (1000 bytes)");
    assert_eq!(lines.len(), 8);
}
