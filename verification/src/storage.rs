//! Where the bytes of a torrent go on disk: each file's place in the torrent's
//! byte stream, and the parts of a piece that fall in each file.
use vstd::prelude::*;
use crate::torrent::{file_view, files_total, files_view, strings_view, FileEntry, FileView};
use crate::text::{push_char, push_str};

verus! {

/// A file of the torrent: its path below the output directory (components joined
/// by `/`), where it starts in the torrent's byte stream, and its length.
#[derive(Debug, Clone)]
pub struct FileLayout {
    pub path: String,
    pub offset: u64,
    pub length: u64,
}

/// The files of a torrent laid out below an output directory.
pub struct TorrentStorage {
    root: String,
    files: Vec<FileLayout>,
}

/// The path components `parts` joined by `/`.
pub open spec fn joined(parts: Seq<Seq<char>>) -> Seq<char>
    decreases parts.len(),
{
    if parts.len() == 0 {
        seq![]
    } else if parts.len() == 1 {
        parts[0]
    } else {
        joined(parts.drop_last()) + seq!['/'] + parts.last()
    }
}

/// The layout of `files`: each at the sum of the lengths before it.
pub open spec fn layout_of(files: Seq<FileView>) -> Seq<(Seq<char>, u64, u64)> {
    Seq::new(
        files.len(),
        |i: int| (joined(files[i].path), files_total(files.take(i)) as u64, files[i].length),
    )
}

pub open spec fn layout_view(files: Seq<FileLayout>) -> Seq<(Seq<char>, u64, u64)> {
    Seq::new(files.len(), |i: int| (files[i].path@, files[i].offset, files[i].length))
}

impl TorrentStorage {
    pub closed spec fn spec_root(&self) -> Seq<char> {
        self.root@
    }

    pub closed spec fn spec_files(&self) -> Seq<(Seq<char>, u64, u64)> {
        layout_view(self.files@)
    }

    /// A file never ends past `u64::MAX`.
    #[verifier::type_invariant]
    spec fn wf(&self) -> bool {
        forall|i: int| 0 <= i < self.files@.len() ==> self.files@[i].offset + self.files@[i].length <= u64::MAX
    }
}

/// Joins the components `parts` with `/`.
pub fn join_path(parts: &Vec<String>) -> (s: String)
    ensures
        s@ == joined(strings_view(parts@)),
{
    let ghost v = strings_view(parts@);
    let mut s = String::new();
    let mut i: usize = 0;
    while i < parts.len()
        invariant
            i <= parts@.len(),
            v == strings_view(parts@),
            s@ == joined(v.take(i as int)),
        decreases parts.len() - i,
    {
        if i > 0 {
            push_char(&mut s, '/');
        }
        push_str(&mut s, parts[i].as_str());
        assert(v.take(i + 1).drop_last() =~= v.take(i as int));
        assert(v.take(i + 1).last() == parts@[i as int]@);
        if i == 0 {
            assert(s@ =~= joined(v.take(1)));
        } else {
            assert(s@ =~= joined(v.take(i as int)) + seq!['/'] + parts@[i as int]@);
        }
        i += 1;
    }
    assert(v.take(parts@.len() as int) =~= v);
    s
}

proof fn lemma_total_prefix_grows(files: Seq<FileView>, i: int)
    requires
        0 <= i < files.len(),
    ensures
        files_total(files.take(i + 1)) == files_total(files.take(i)) + files[i].length,
        files_total(files.take(i)) <= files_total(files.take(i + 1)),
{
    assert(files.take(i + 1).drop_last() =~= files.take(i));
}

proof fn lemma_total_prefix_bound(files: Seq<FileView>, i: int)
    requires
        0 <= i <= files.len(),
    ensures
        files_total(files.take(i)) <= files_total(files),
    decreases files.len() - i,
{
    if i < files.len() {
        lemma_total_prefix_grows(files, i);
        lemma_total_prefix_bound(files, i + 1);
    } else {
        assert(files.take(i) =~= files);
    }
}

impl TorrentStorage {
    /// Lays out `files` below `root`, one after another in the torrent's byte stream.
    pub fn layout(root: String, files: &Vec<FileEntry>) -> (s: TorrentStorage)
        requires
            files_total(files_view(files@)) <= u64::MAX,
        ensures
            s.spec_root() == root@,
            s.spec_files() == layout_of(files_view(files@)),
    {
        let ghost fv = files_view(files@);
        let mut layout: Vec<FileLayout> = Vec::new();
        let mut offset: u64 = 0;
        let mut i: usize = 0;
        while i < files.len()
            invariant
                i <= files@.len(),
                fv == files_view(files@),
                files_total(fv) <= u64::MAX,
                offset == files_total(fv.take(i as int)),
                layout@.len() == i,
                forall|j: int| 0 <= j < i ==> layout@[j].offset + layout@[j].length <= u64::MAX,
                forall|j: int| 0 <= j < i ==> layout_view(layout@)[j] == layout_of(fv)[j],
            decreases files.len() - i,
        {
            proof {
                lemma_total_prefix_grows(fv, i as int);
                lemma_total_prefix_bound(fv, i + 1);
            }
            let path = join_path(&files[i].path);
            let length = files[i].length;
            layout.push(FileLayout { path, offset, length });
            offset = offset + length;
            assert(layout_view(layout@)[i as int] == layout_of(fv)[i as int]);
            i += 1;
        }
        assert(layout_view(layout@) =~= layout_of(fv));
        TorrentStorage { root, files: layout }
    }

    /// The output directory.
    pub fn root(&self) -> (r: &str)
        ensures
            r@ == self.spec_root(),
    {
        self.root.as_str()
    }

    /// The files as laid out.
    pub fn files(&self) -> (f: &Vec<FileLayout>)
        ensures
            layout_view(f@) == self.spec_files(),
    {
        &self.files
    }
}

/// The part of a piece that goes to one file: the file's index, where the part
/// starts in the file and in the piece, and its length.
#[derive(Debug, Clone, Copy, PartialEq, Eq)]
pub struct WriteRegion {
    pub file: usize,
    pub offset_in_file: u64,
    pub offset_in_piece: usize,
    pub length: usize,
}

pub open spec fn max(a: int, b: int) -> int {
    if a < b {
        b
    } else {
        a
    }
}

pub open spec fn min(a: int, b: int) -> int {
    if a < b {
        a
    } else {
        b
    }
}

/// The part of the bytes `[piece_start, piece_end)` that falls in file `i` of
/// `files`, if any.
pub open spec fn region_in(files: Seq<(Seq<char>, u64, u64)>, i: int, piece_start: int, piece_end: int) -> Option<WriteRegion> {
    let start = max(piece_start, files[i].1 as int);
    let end = min(piece_end, files[i].1 + files[i].2);
    if start >= end {
        None
    } else {
        Some(
            WriteRegion {
                file: i as usize,
                offset_in_file: (start - files[i].1) as u64,
                offset_in_piece: (start - piece_start) as usize,
                length: (end - start) as usize,
            },
        )
    }
}

/// The parts of the bytes `[piece_start, piece_end)` in the first `n` files, in
/// file order.
pub open spec fn regions_upto(files: Seq<(Seq<char>, u64, u64)>, n: int, piece_start: int, piece_end: int) -> Seq<WriteRegion>
    decreases n,
{
    if n <= 0 {
        seq![]
    } else {
        let before = regions_upto(files, n - 1, piece_start, piece_end);
        match region_in(files, n - 1, piece_start, piece_end) {
            Some(r) => before.push(r),
            None => before,
        }
    }
}

impl TorrentStorage {
    /// Where the `data_len` bytes of piece `piece_index` go, for pieces of
    /// `piece_length` bytes: one part for each file that the piece overlaps.
    pub fn write_regions(&self, piece_index: u32, piece_length: u64, data_len: usize) -> (r: Vec<WriteRegion>)
        requires
            piece_index * piece_length + data_len <= u64::MAX,
        ensures
            r@ == regions_upto(
                self.spec_files(),
                self.spec_files().len() as int,
                piece_index * piece_length,
                piece_index * piece_length + data_len,
            ),
    {
        proof {
            use_type_invariant(self);
        }
        let ghost files = self.spec_files();
        let piece_start: u64 = piece_index as u64 * piece_length;
        let piece_end: u64 = piece_start + data_len as u64;
        let mut regions: Vec<WriteRegion> = Vec::new();
        let mut i: usize = 0;
        while i < self.files.len()
            invariant
                self.wf(),
                files == self.spec_files(),
                i <= files.len(),
                piece_start == piece_index * piece_length,
                piece_end == piece_start + data_len,
                regions@ == regions_upto(files, i as int, piece_start as int, piece_end as int),
            decreases self.files.len() - i,
        {
            let file = &self.files[i];
            assert(files[i as int] == (file.path@, file.offset, file.length));
            let file_end = file.offset + file.length;
            let write_start = if piece_start > file.offset {
                piece_start
            } else {
                file.offset
            };
            let write_end = if piece_end < file_end {
                piece_end
            } else {
                file_end
            };
            if write_start < write_end {
                regions.push(
                    WriteRegion {
                        file: i,
                        offset_in_file: write_start - file.offset,
                        offset_in_piece: (write_start - piece_start) as usize,
                        length: (write_end - write_start) as usize,
                    },
                );
            }
            i += 1;
        }
        regions
    }
}

/// Each part of a piece is not empty, lies in its file and in the piece, and puts
/// the bytes of the piece at their place in the torrent's byte stream.
pub proof fn lemma_region_sound(files: Seq<(Seq<char>, u64, u64)>, n: int, piece_start: int, piece_end: int, k: int)
    requires
        0 <= n <= files.len(),
        n <= usize::MAX,
        0 <= piece_start <= piece_end,
        piece_end - piece_start <= usize::MAX,
        0 <= k < regions_upto(files, n, piece_start, piece_end).len(),
    ensures
        ({
            let r = regions_upto(files, n, piece_start, piece_end)[k];
            &&& r.file < n
            &&& 0 < r.length
            &&& r.offset_in_file + r.length <= files[r.file as int].2
            &&& r.offset_in_piece + r.length <= piece_end - piece_start
            &&& files[r.file as int].1 + r.offset_in_file == piece_start + r.offset_in_piece
        }),
    decreases n,
{
    let before = regions_upto(files, n - 1, piece_start, piece_end);
    if k < before.len() {
        lemma_region_sound(files, n - 1, piece_start, piece_end, k);
    }
}

/// Every byte of a piece that falls in a file is written by the part of that file.
pub proof fn lemma_region_covers(
    files: Seq<(Seq<char>, u64, u64)>,
    n: int,
    piece_start: int,
    piece_end: int,
    i: int,
    g: int,
)
    requires
        0 <= i < n <= files.len(),
        n <= usize::MAX,
        0 <= piece_start <= g < piece_end,
        piece_end - piece_start <= usize::MAX,
        files[i].1 <= g < files[i].1 + files[i].2,
    ensures
        exists|k: int|
            0 <= k < regions_upto(files, n, piece_start, piece_end).len() && (#[trigger] regions_upto(
                files,
                n,
                piece_start,
                piece_end,
            )[k]).file == i && regions_upto(files, n, piece_start, piece_end)[k].offset_in_piece <= g
                - piece_start < regions_upto(files, n, piece_start, piece_end)[k].offset_in_piece
                + regions_upto(files, n, piece_start, piece_end)[k].length,
    decreases n,
{
    let before = regions_upto(files, n - 1, piece_start, piece_end);
    if i < n - 1 {
        lemma_region_covers(files, n - 1, piece_start, piece_end, i, g);
        let k = choose|k: int|
            0 <= k < before.len() && (#[trigger] before[k]).file == i && before[k].offset_in_piece <= g
                - piece_start < before[k].offset_in_piece + before[k].length;
        assert(regions_upto(files, n, piece_start, piece_end)[k] == before[k]);
    } else {
        let r = region_in(files, n - 1, piece_start, piece_end);
        assert(r is Some);
        assert(regions_upto(files, n, piece_start, piece_end)[before.len() as int] == r->0);
    }
}

} // verus!
