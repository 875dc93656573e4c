use sha1::{Digest, Sha1};
use bitorrentclient::download::{verify_piece, DownloadRun};
use bitorrentclient::peer::PieceDownload;
use bitorrentclient::torrent::{FileEntry, TorrentMetadata};

fn sha1_of(data: &[u8]) -> [u8; 20] {
    Sha1::digest(data).into()
}

#[test]
fn verify_piece_accepts_matching_hash() {
    let data = b"hello piece";
    let hash = sha1_of(data);
    verify_piece(data, hash).unwrap();
}

#[test]
fn verify_piece_rejects_mismatch() {
    let err = verify_piece(b"bad", [0xFF; 20]).unwrap_err();
    assert!(err.to_string().contains("hash mismatch"));
}

#[test]
fn download_run_walks_pieces_in_order() {
    let metadata = TorrentMetadata {
        announce: None,
        name: "x".into(),
        piece_length: 8,
        piece_hashes: vec![[1; 20], [2; 20], [3; 20]],
        files: vec![FileEntry { path: vec!["x".into()], length: 20 }],
        info_hash: [0; 20],
    };
    let mut run = DownloadRun::new(&metadata, 20);
    let mut seen = Vec::new();
    while let Some((index, length, hash)) = run.next_piece() {
        assert!(run.next_piece_fits());
        let progress = run.piece_done();
        seen.push((index, length, hash[0], progress.current_piece, progress.downloaded_bytes));
    }
    assert_eq!(seen, vec![(0, 8, 1, 1, 8), (1, 8, 2, 2, 16), (2, 4, 3, 3, 20)]);
}

#[test]
fn piece_download_assembles_blocks() {
    let piece: Vec<u8> = (0..40000u32).map(|i| (i % 251) as u8).collect();
    let mut download = PieceDownload::new(3, piece.len() as u64);
    let mut requests = Vec::new();
    while let Some((begin, length)) = download.next_block() {
        requests.push((begin, length));
        download.add_block(&piece[begin as usize..(begin + length) as usize]);
    }
    assert_eq!(requests, vec![(0, 16384), (16384, 16384), (32768, 7232)]);
    assert_eq!(download.finish(sha1_of(&piece)).unwrap(), piece);
    let mut other = PieceDownload::new(3, 4);
    other.add_block(b"abcd");
    let err = other.finish([0; 20]).unwrap_err();
    assert_eq!(err.to_string(), "piece hash mismatch for piece 3");
}
