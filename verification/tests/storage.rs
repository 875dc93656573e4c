use bitorrentclient::storage::TorrentStorage;
use bitorrentclient::torrent::FileEntry;

fn apply(files: &mut [Vec<u8>], storage: &TorrentStorage, index: u32, piece_length: u64, data: &[u8]) {
    for region in storage.write_regions(index, piece_length, data.len()) {
        let file = &mut files[region.file];
        let at = region.offset_in_file as usize;
        file[at..at + region.length]
            .copy_from_slice(&data[region.offset_in_piece..region.offset_in_piece + region.length]);
    }
}

#[test]
fn writes_piece_bytes_to_correct_file_region() {
    let entries = vec![
        FileEntry { path: vec!["a.txt".into()], length: 10 },
        FileEntry { path: vec!["b.txt".into()], length: 6 },
    ];
    let storage = TorrentStorage::layout("dir".to_string(), &entries);
    let mut files = vec![vec![0u8; 10], vec![0u8; 6]];
    apply(&mut files, &storage, 0, 8, b"01234567");
    apply(&mut files, &storage, 1, 8, b"89abcdef");
    assert_eq!(files[0], b"0123456789");
    assert_eq!(files[1], b"abcdef");
}

#[test]
fn layout_offsets_and_paths() {
    let entries = vec![
        FileEntry { path: vec!["d".into(), "a.txt".into()], length: 3 },
        FileEntry { path: vec!["b.txt".into()], length: 0 },
        FileEntry { path: vec!["c.txt".into()], length: 7 },
    ];
    let storage = TorrentStorage::layout("out".to_string(), &entries);
    assert_eq!(storage.root(), "out");
    let files = storage.files();
    assert_eq!(files[0].path, "d/a.txt");
    assert_eq!((files[0].offset, files[1].offset, files[2].offset), (0, 3, 3));
    let regions = storage.write_regions(0, 5, 5);
    assert_eq!(regions.len(), 2);
    assert_eq!((regions[0].file, regions[0].offset_in_file, regions[0].offset_in_piece, regions[0].length), (0, 0, 0, 3));
    assert_eq!((regions[1].file, regions[1].offset_in_file, regions[1].offset_in_piece, regions[1].length), (2, 0, 3, 2));
}
