use bitorrentclient::addr::PeerAddr;
use bitorrentclient::download::DownloadProgress;
use bitorrentclient::gui::{size_line, TorrentApp, WorkerMessage, MAX_LOG_LINES};
use bitorrentclient::torrent::TorrentMetadata;

fn metadata() -> TorrentMetadata {
    let data: &[u8] =
        b"d8:announce14:http://tracker4:infod6:lengthi1000e4:name4:test12:piece lengthi32768e6:pieces20:aaaaaaaaaaaaaaaaaaaaee";
    TorrentMetadata::from_bytes(data).unwrap()
}

#[test]
fn log_keeps_the_latest_lines() {
    let mut app = TorrentApp::new();
    for i in 0..(MAX_LOG_LINES + 5) {
        app.push_log(format!("line {i}"));
    }
    assert_eq!(app.logs.len(), MAX_LOG_LINES);
    assert_eq!(app.logs[0], "line 5");
    assert_eq!(app.logs.last().unwrap(), &format!("line {}", MAX_LOG_LINES + 4));
}

#[test]
fn buttons_follow_the_state() {
    let mut app = TorrentApp::new();
    assert!(app.can_open());
    assert!(!app.can_find_peers());
    assert_eq!(app.start_find_peers(), None);
    app.loaded(metadata(), "t.torrent".into(), 1000);
    assert_eq!(app.status, "Loaded t.torrent");
    assert_eq!(app.output_dir, "test");
    assert!(app.can_find_peers());
    assert!(!app.can_download());
    assert_eq!(app.start_download(1000), None);
    assert_eq!(app.status, "Find peers before downloading.");
    let config = app.start_find_peers().unwrap();
    assert!(config.use_tracker && config.use_dht);
    assert!(!app.can_open());
    assert!(!app.receive(WorkerMessage::Peers(vec![PeerAddr::new(1, 1, 1, 1, 1)])));
    assert_eq!(app.status, "Found 1 peers");
    assert!(app.receive(WorkerMessage::Failed("boom".into())));
    assert_eq!(app.logs.last().unwrap(), "Error: boom");
    assert!(app.can_download());
    let (peers, dir) = app.start_download(1000).unwrap();
    assert_eq!((peers.len(), dir.as_str()), (1, "test"));
    assert!(!app.receive(WorkerMessage::Progress(DownloadProgress {
        current_piece: 1,
        total_pieces: 1,
        downloaded_bytes: 1000,
        total_bytes: 1000,
    })));
    assert_eq!(app.status, "Downloading piece 1/1");
    assert!(app.shows_progress());
    assert_eq!(app.progress_text(), "1000 B / 1000 B (piece 1/1)");
    assert!(app.receive(WorkerMessage::Finished("test".into())));
    assert_eq!(app.status, "Download complete: test");
    assert!(app.download_complete && !app.busy);
}

#[test]
fn size_line_text() {
    assert_eq!(size_line(1536, 2), "Size: 1.50 KiB (2 pieces)");
}
