use bitorrentclient::bencode::{info_dict_bytes, info_hash, BencodeError};
use bitorrentclient::torrent::{TorrentError, TorrentMetadata};
use sha1::{Digest, Sha1};

const SINGLE_FILE: &[u8] =
    b"d8:announce14:http://tracker4:infod6:lengthi1000e4:name4:test12:piece lengthi32768e6:pieces20:aaaaaaaaaaaaaaaaaaaaee";

#[test]
fn parses_single_file_torrent() {
    let torrent = TorrentMetadata::from_bytes(SINGLE_FILE).unwrap();
    assert_eq!(torrent.name, "test");
    assert_eq!(torrent.announce.as_deref(), Some("http://tracker"));
    assert_eq!(torrent.piece_length, 32_768);
    assert_eq!(torrent.piece_count(), 1);
    assert_eq!(torrent.total_size(), 1000);
    assert_eq!(torrent.files.len(), 1);
    assert_eq!(torrent.files[0].path, vec!["test".to_string()]);
}

#[test]
fn parses_multi_file_torrent() {
    let data: &[u8] = b"d8:announce14:http://tracker4:infod5:filesld6:lengthi100e4:pathl5:a.txteed6:lengthi200e4:pathl5:b.txteee4:name3:dir12:piece lengthi256e6:pieces40:aaaaaaaaaaaaaaaaaaaabbbbbbbbbbbbbbbbbbbbee";
    let torrent = TorrentMetadata::from_bytes(data).unwrap();
    assert_eq!(torrent.name, "dir");
    assert_eq!(torrent.announce.as_deref(), Some("http://tracker"));
    assert_eq!(torrent.piece_count(), 2);
    assert_eq!(torrent.total_size(), 300);
    assert_eq!(torrent.files.len(), 2);
    assert_eq!(torrent.files[0].path, vec!["a.txt".to_string()]);
    assert_eq!(torrent.files[1].path, vec!["b.txt".to_string()]);
    assert_eq!(torrent.piece_hashes[1], [b'b'; 20]);
}

#[test]
fn info_hash_matches_info_dict_sha1() {
    let data = br#"d8:announce14:http://tracker4:infod6:lengthi1000e4:name4:test12:piece lengthi32768e6:pieces20:aaaaaaaaaaaaaaaaaaaaee"#;
    let hash = info_hash(data).unwrap();
    let expected: [u8; 20] = Sha1::digest(info_dict_bytes(data).unwrap()).into();
    assert_eq!(hash, expected);
}

#[test]
fn torrent_info_hash_is_sha1_of_info_dictionary() {
    let torrent = TorrentMetadata::from_bytes(SINGLE_FILE).unwrap();
    let again = bitorrentclient::bencode::info_hash(SINGLE_FILE).unwrap();
    assert_eq!(torrent.info_hash, again);
}

#[test]
fn torrent_without_info_is_refused() {
    let err = TorrentMetadata::from_bytes(b"d8:announce3:abce").unwrap_err();
    assert!(matches!(err, TorrentError::Bencode(_)));
}

#[test]
fn torrent_with_bad_piece_blob_is_refused() {
    let data: &[u8] = b"d4:infod6:lengthi5e4:name1:x12:piece lengthi16e6:pieces3:abcee";
    let err = TorrentMetadata::from_bytes(data).unwrap_err();
    assert_eq!(err, TorrentError::BadPiecesLength(3));
    assert_eq!(err.to_string(), "piece hash blob length must be a multiple of 20, got 3");
}

#[test]
fn torrent_missing_name_is_refused() {
    let data: &[u8] = b"d4:infod6:lengthi5e12:piece lengthi16e6:pieces0:ee";
    let err = TorrentMetadata::from_bytes(data).unwrap_err();
    assert_eq!(err.to_string(), "torrent info is missing name");
}

#[test]
fn torrent_negative_length_is_refused() {
    let data: &[u8] = b"d4:infod6:lengthi-5e4:name1:x12:piece lengthi16e6:pieces0:ee";
    let err = TorrentMetadata::from_bytes(data).unwrap_err();
    assert_eq!(err.to_string(), "invalid bencode integer: -5");
}

#[test]
fn torrent_root_must_be_dictionary() {
    let data: &[u8] = b"l4:infoe";
    let err = TorrentMetadata::from_bytes(data).unwrap_err();
    assert!(matches!(err, TorrentError::Bencode(_)));
    let data: &[u8] = b"li1ee4:infod4:name1:x6:lengthi1e12:piece lengthi1e6:pieces0:e";
    let err = TorrentMetadata::from_bytes(data).unwrap_err();
    assert_eq!(err, TorrentError::Bencode(BencodeError::MissingInfo));
}

#[test]
fn total_size_overflow_is_reported() {
    let mut torrent = TorrentMetadata::from_bytes(SINGLE_FILE).unwrap();
    assert_eq!(torrent.checked_total_size(), Some(1000));
    torrent.files[0].length = u64::MAX;
    torrent.files.push(torrent.files[0].clone());
    assert_eq!(torrent.checked_total_size(), None);
}

#[test]
fn info_of_the_wrong_kind_is_reported_as_bendy_words_it() {
    let data: &[u8] = b"d4:infoi1ee";
    let err = TorrentMetadata::from_bytes(data).unwrap_err();
    assert_eq!(err.to_string(), "Error: discovered Dict but expected Num");
}
