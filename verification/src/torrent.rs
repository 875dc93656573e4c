//! Torrent metainfo: reading a `.torrent` file.
use vstd::prelude::*;
use vstd::utf8::{decode_utf8, valid_utf8};
use crate::bytes::{array20_at, bytes_equal};
use crate::bencode::{info_hash, spec_info_dict, BencodeError};
use crate::decoding::{
    bendy_tokens, check_value_start, decode_tokens, kind_name, lemma_skip_from_advances,
    parse_u64, parse_u64_text, skip, skip_value, token_view, token_views, unexpected,
    unexpected_token_text, value_start, Token, TokenView,
};
use crate::hashing::sha1;
use crate::text::{decimal, push_decimal, push_str, string_of};
use crate::utf8::{lossy_utf8, string_from_utf8, string_from_utf8_lossy};

verus! {

/// A file of the torrent: its path components and its length in bytes.
#[derive(Debug, Clone, PartialEq, Eq)]
pub struct FileEntry {
    pub path: Vec<String>,
    pub length: u64,
}

/// What a `.torrent` file describes.
#[derive(Debug, Clone)]
pub struct TorrentMetadata {
    pub announce: Option<String>,
    pub name: String,
    pub piece_length: u64,
    pub piece_hashes: Vec<[u8; 20]>,
    pub files: Vec<FileEntry>,
    pub info_hash: [u8; 20],
}

/// A file entry as plain values.
pub struct FileView {
    pub path: Seq<Seq<char>>,
    pub length: u64,
}

/// Torrent metainfo as plain values.
pub struct MetaView {
    pub announce: Option<Seq<char>>,
    pub name: Seq<char>,
    pub piece_length: u64,
    pub piece_hashes: Seq<Seq<u8>>,
    pub files: Seq<FileView>,
    pub info_hash: Seq<u8>,
}

pub open spec fn strings_view(v: Seq<String>) -> Seq<Seq<char>> {
    Seq::new(v.len(), |i: int| v[i]@)
}

pub open spec fn file_view(f: FileEntry) -> FileView {
    FileView { path: strings_view(f.path@), length: f.length }
}

pub open spec fn files_view(v: Seq<FileEntry>) -> Seq<FileView> {
    Seq::new(v.len(), |i: int| file_view(v[i]))
}

pub open spec fn hashes_view(v: Seq<[u8; 20]>) -> Seq<Seq<u8>> {
    Seq::new(v.len(), |i: int| v[i]@)
}

pub open spec fn opt_text(o: Option<String>) -> Option<Seq<char>> {
    match o {
        Some(s) => Some(s@),
        None => None,
    }
}

pub open spec fn meta_view(m: TorrentMetadata) -> MetaView {
    MetaView {
        announce: opt_text(m.announce),
        name: m.name@,
        piece_length: m.piece_length,
        piece_hashes: hashes_view(m.piece_hashes@),
        files: files_view(m.files@),
        info_hash: m.info_hash@,
    }
}

/// Why a torrent file could not be read.
#[derive(Debug, Clone, PartialEq, Eq)]
pub enum TorrentError {
    /// The info dictionary could not be found or measured.
    Bencode(BencodeError),
    /// The bencode decoder's error, or a value of the wrong kind, with its message.
    Decode(String),
    /// The token stream ends, or holds a token, where no decoded stream can.
    Malformed,
    Empty,
    InvalidUtf8,
    /// An integer that is not a `u64`, with its numeral.
    InvalidInteger(Vec<u8>),
    MissingInfo,
    MissingName,
    MissingPieceLength,
    MissingPieces,
    /// The piece hashes are not a whole number of 20-byte hashes.
    BadPiecesLength(usize),
    MissingLengthOrFiles,
    MissingFileLength,
    MissingFilePath,
}

/// A failure as plain values.
pub enum Fail {
    Decode(Seq<char>),
    InvalidInteger(Seq<u8>),
    Plain(TorrentError),
}

pub open spec fn error_view(e: TorrentError) -> Fail {
    match e {
        TorrentError::Decode(m) => Fail::Decode(m@),
        TorrentError::InvalidInteger(d) => Fail::InvalidInteger(d@),
        other => Fail::Plain(other),
    }
}

/// A failure of the token reader: the decoder's message, or a malformed stream.
pub open spec fn read_fail(e: Option<Seq<char>>) -> Fail {
    match e {
        Some(m) => Fail::Decode(m),
        None => Fail::Plain(TorrentError::Malformed),
    }
}

impl TorrentError {
    pub open spec fn spec_message(self) -> Seq<char> {
        match self {
            TorrentError::Bencode(e) => e.spec_message(),
            TorrentError::Decode(m) => m@,
            TorrentError::Malformed => "malformed bencode token stream"@,
            TorrentError::Empty => "torrent file is empty"@,
            TorrentError::InvalidUtf8 => "torrent string is not valid UTF-8"@,
            TorrentError::InvalidInteger(d) => "invalid bencode integer: "@ + lossy_utf8(d@),
            TorrentError::MissingInfo => "torrent is missing info dictionary"@,
            TorrentError::MissingName => "torrent info is missing name"@,
            TorrentError::MissingPieceLength => "torrent info is missing piece length"@,
            TorrentError::MissingPieces => "torrent info is missing piece hashes"@,
            TorrentError::BadPiecesLength(n) => "piece hash blob length must be a multiple of 20, got "@
                + decimal(n as nat),
            TorrentError::MissingLengthOrFiles => "torrent info must contain either length or files"@,
            TorrentError::MissingFileLength => "file entry is missing length"@,
            TorrentError::MissingFilePath => "file entry is missing path"@,
        }
    }

    /// The error's message.
    pub fn to_string(&self) -> (s: String)
        ensures
            s@ == self.spec_message(),
    {
        match self {
            TorrentError::Bencode(e) => e.to_string(),
            TorrentError::Decode(m) => m.clone(),
            TorrentError::Malformed => string_of("malformed bencode token stream"),
            TorrentError::Empty => string_of("torrent file is empty"),
            TorrentError::InvalidUtf8 => string_of("torrent string is not valid UTF-8"),
            TorrentError::InvalidInteger(d) => {
                let mut s = string_of("invalid bencode integer: ");
                let digits = string_from_utf8_lossy(d.as_slice());
                push_str(&mut s, digits.as_str());
                s
            },
            TorrentError::MissingInfo => string_of("torrent is missing info dictionary"),
            TorrentError::MissingName => string_of("torrent info is missing name"),
            TorrentError::MissingPieceLength => string_of("torrent info is missing piece length"),
            TorrentError::MissingPieces => string_of("torrent info is missing piece hashes"),
            TorrentError::BadPiecesLength(n) => {
                let mut s = string_of("piece hash blob length must be a multiple of 20, got ");
                push_decimal(&mut s, *n as u64);
                s
            },
            TorrentError::MissingLengthOrFiles => string_of("torrent info must contain either length or files"),
            TorrentError::MissingFileLength => string_of("file entry is missing length"),
            TorrentError::MissingFilePath => string_of("file entry is missing path"),
        }
    }
}

pub open spec fn announce_key() -> Seq<u8> {
    seq![97u8, 110, 110, 111, 117, 110, 99, 101]
}

pub open spec fn info_key() -> Seq<u8> {
    seq![105u8, 110, 102, 111]
}

pub open spec fn name_key() -> Seq<u8> {
    seq![110u8, 97, 109, 101]
}

pub open spec fn piece_length_key() -> Seq<u8> {
    seq![112u8, 105, 101, 99, 101, 32, 108, 101, 110, 103, 116, 104]
}

pub open spec fn pieces_key() -> Seq<u8> {
    seq![112u8, 105, 101, 99, 101, 115]
}

pub open spec fn length_key() -> Seq<u8> {
    seq![108u8, 101, 110, 103, 116, 104]
}

pub open spec fn files_key() -> Seq<u8> {
    seq![102u8, 105, 108, 101, 115]
}

pub open spec fn path_key() -> Seq<u8> {
    seq![112u8, 97, 116, 104]
}

/// The byte string at `p` read as UTF-8 text.
pub open spec fn text_at(ts: Seq<TokenView>, p: int) -> Result<Seq<char>, Fail> {
    match ts[p] {
        TokenView::Bytes(b) => if valid_utf8(b) {
            Ok(decode_utf8(b))
        } else {
            Err(Fail::Plain(TorrentError::InvalidUtf8))
        },
        t => Err(Fail::Decode(unexpected_token_text("String"@, kind_name(t)))),
    }
}

/// The integer at `p` read as a `u64`.
pub open spec fn int_at(ts: Seq<TokenView>, p: int) -> Result<u64, Fail> {
    match ts[p] {
        TokenView::Num(d) => match parse_u64_text(d) {
            Some(v) => Ok(v),
            None => Err(Fail::InvalidInteger(d)),
        },
        t => Err(Fail::Decode(unexpected_token_text("Num"@, kind_name(t)))),
    }
}

/// The byte string at `p`.
pub open spec fn bytes_at(ts: Seq<TokenView>, p: int) -> Result<Seq<u8>, Fail> {
    match ts[p] {
        TokenView::Bytes(b) => Ok(b),
        t => Err(Fail::Decode(unexpected_token_text("String"@, kind_name(t)))),
    }
}

/// The path components from `q` to the end of the list, after `acc`, and the
/// position after the list.
pub open spec fn path_items(ts: Seq<TokenView>, q: int, acc: Seq<Seq<char>>) -> Result<(Seq<Seq<char>>, int), Fail>
    decreases ts.len() - q,
{
    if q < 0 || q >= ts.len() {
        Err(Fail::Plain(TorrentError::Malformed))
    } else {
        match ts[q] {
            TokenView::Error(m) => Err(Fail::Decode(m)),
            TokenView::End => Ok((acc, q + 1)),
            _ => match text_at(ts, q) {
                Err(e) => Err(e),
                Ok(s) => path_items(ts, q + 1, acc.push(s)),
            },
        }
    }
}

/// The path list at `p`.
pub open spec fn path_at(ts: Seq<TokenView>, p: int) -> Result<(Seq<Seq<char>>, int), Fail> {
    match ts[p] {
        TokenView::List => path_items(ts, p + 1, seq![]),
        t => Err(Fail::Decode(unexpected_token_text("List"@, kind_name(t)))),
    }
}

/// Reading the items of a path list moves forward and stays within the tokens.
pub proof fn lemma_path_items_advances(ts: Seq<TokenView>, q: int, acc: Seq<Seq<char>>)
    ensures
        path_items(ts, q, acc) matches Ok((_, e)) ==> q < e <= ts.len(),
    decreases ts.len() - q,
{
    if 0 <= q < ts.len() {
        match ts[q] {
            TokenView::Error(_) => {},
            TokenView::End => {},
            _ => if let Ok(s) = text_at(ts, q) {
                lemma_path_items_advances(ts, q + 1, acc.push(s));
            },
        }
    }
}

/// Reading a path list moves forward and stays within the tokens.
pub proof fn lemma_path_at_advances(ts: Seq<TokenView>, p: int)
    requires
        0 <= p < ts.len(),
    ensures
        path_at(ts, p) matches Ok((_, e)) ==> p < e <= ts.len(),
{
    lemma_path_items_advances(ts, p + 1, seq![]);
}

/// The text of each of `parts`, in order.
pub open spec fn texts_of(parts: Seq<Seq<u8>>) -> Seq<Seq<char>> {
    parts.map_values(|b: Seq<u8>| decode_utf8(b))
}

/// The items of a path list from position `p + 1 + k` on, after the texts of the
/// first `k` parts, are the texts of all the parts.
proof fn lemma_path_items_parts(ts: Seq<TokenView>, p: int, parts: Seq<Seq<u8>>, k: int)
    requires
        0 <= p,
        0 <= k <= parts.len(),
        p + parts.len() + 1 < ts.len(),
        forall|i: int|
            0 <= i < parts.len() ==> ts[p + 1 + i] == TokenView::Bytes(#[trigger] parts[i]) && valid_utf8(parts[i]),
        ts[p + 1 + parts.len()] == TokenView::End,
    ensures
        path_items(ts, p + 1 + k, texts_of(parts.take(k))) == Ok::<(Seq<Seq<char>>, int), Fail>(
            (texts_of(parts), p + parts.len() + 2),
        ),
    decreases parts.len() - k,
{
    if k == parts.len() {
        assert(parts.take(k) =~= parts);
    } else {
        assert(ts[p + 1 + k] == TokenView::Bytes(parts[k]) && valid_utf8(parts[k]));
        assert(texts_of(parts.take(k)).push(decode_utf8(parts[k])) =~= texts_of(parts.take(k + 1)));
        lemma_path_items_parts(ts, p, parts, k + 1);
    }
}

/// A path list made of UTF-8 strings reads as those strings, in the order in which
/// they stand, and the reader stops right after the list's end.
pub proof fn lemma_path_at_parts(ts: Seq<TokenView>, p: int, parts: Seq<Seq<u8>>)
    requires
        0 <= p,
        p + parts.len() + 1 < ts.len(),
        ts[p] == TokenView::List,
        forall|i: int|
            0 <= i < parts.len() ==> ts[p + 1 + i] == TokenView::Bytes(#[trigger] parts[i]) && valid_utf8(parts[i]),
        ts[p + 1 + parts.len()] == TokenView::End,
    ensures
        path_at(ts, p) == Ok::<(Seq<Seq<char>>, int), Fail>((texts_of(parts), p + parts.len() + 2)),
        texts_of(parts).len() == parts.len(),
        forall|i: int| 0 <= i < parts.len() ==> texts_of(parts)[i] == decode_utf8(#[trigger] parts[i]),
{
    assert(parts.take(0) =~= seq![]);
    assert(texts_of(seq![]) =~= seq![]);
    lemma_path_items_parts(ts, p, parts, 0);
}

/// The entries of a file dictionary from `q` on, given the length and path read so
/// far; the file and the position after the dictionary.
pub open spec fn file_pairs(
    ts: Seq<TokenView>,
    q: int,
    length: Option<u64>,
    path: Option<Seq<Seq<char>>>,
) -> Result<(FileView, int), Fail>
    decreases ts.len() - q,
{
    if q < 0 || q >= ts.len() {
        Err(Fail::Plain(TorrentError::Malformed))
    } else {
        match ts[q] {
            TokenView::Error(m) => Err(Fail::Decode(m)),
            TokenView::End => match length {
                None => Err(Fail::Plain(TorrentError::MissingFileLength)),
                Some(l) => match path {
                    None => Err(Fail::Plain(TorrentError::MissingFilePath)),
                    Some(p) => Ok((FileView { path: p, length: l }, q + 1)),
                },
            },
            TokenView::Bytes(k) => match value_start(ts, q + 1) {
                Err(e) => Err(read_fail(e)),
                Ok(()) => if k == length_key() {
                    match int_at(ts, q + 1) {
                        Err(e) => Err(e),
                        Ok(v) => file_pairs(ts, q + 2, Some(v), path),
                    }
                } else if k == path_key() {
                    match path_at(ts, q + 1) {
                        Err(e) => Err(e),
                        Ok((p, e)) => {
                            proof {
                                lemma_path_at_advances(ts, q + 1);
                            }
                            file_pairs(ts, e, length, Some(p))
                        },
                    }
                } else {
                    match skip_value(ts, q + 1) {
                        Err(e) => Err(read_fail(e)),
                        Ok(e) => {
                            proof {
                                lemma_skip_from_advances(ts, q + 1, 0);
                            }
                            file_pairs(ts, e, length, path)
                        },
                    }
                },
            },
            _ => Err(Fail::Plain(TorrentError::Malformed)),
        }
    }
}

/// The file dictionary at `p`.
pub open spec fn file_at(ts: Seq<TokenView>, p: int) -> Result<(FileView, int), Fail> {
    match ts[p] {
        TokenView::Dict => file_pairs(ts, p + 1, None, None),
        t => Err(Fail::Decode(unexpected_token_text("Dict"@, kind_name(t)))),
    }
}

/// Reading the pairs of a file dictionary moves forward and stays within the tokens.
pub proof fn lemma_file_pairs_advances(
    ts: Seq<TokenView>,
    q: int,
    length: Option<u64>,
    path: Option<Seq<Seq<char>>>,
)
    ensures
        file_pairs(ts, q, length, path) matches Ok((_, e)) ==> q < e <= ts.len(),
    decreases ts.len() - q,
{
    if 0 <= q < ts.len() {
        if let TokenView::Bytes(k) = ts[q] {
            if value_start(ts, q + 1) is Ok {
                if k == length_key() {
                    if let Ok(v) = int_at(ts, q + 1) {
                        lemma_file_pairs_advances(ts, q + 2, Some(v), path);
                    }
                } else if k == path_key() {
                    lemma_path_at_advances(ts, q + 1);
                    if let Ok((p, e)) = path_at(ts, q + 1) {
                        lemma_file_pairs_advances(ts, e, length, Some(p));
                    }
                } else {
                    lemma_skip_from_advances(ts, q + 1, 0);
                    if let Ok(e) = skip_value(ts, q + 1) {
                        lemma_file_pairs_advances(ts, e, length, path);
                    }
                }
            }
        }
    }
}

/// Reading a file dictionary moves forward and stays within the tokens.
pub proof fn lemma_file_at_advances(ts: Seq<TokenView>, p: int)
    requires
        0 <= p < ts.len(),
    ensures
        file_at(ts, p) matches Ok((_, e)) ==> p < e <= ts.len(),
{
    lemma_file_pairs_advances(ts, p + 1, None, None);
}

/// The file dictionaries from `q` to the end of the list, after `acc`.
pub open spec fn file_items(ts: Seq<TokenView>, q: int, acc: Seq<FileView>) -> Result<(Seq<FileView>, int), Fail>
    decreases ts.len() - q,
{
    if q < 0 || q >= ts.len() {
        Err(Fail::Plain(TorrentError::Malformed))
    } else {
        match ts[q] {
            TokenView::Error(m) => Err(Fail::Decode(m)),
            TokenView::End => Ok((acc, q + 1)),
            _ => match file_at(ts, q) {
                Err(e) => Err(e),
                Ok((f, e)) => {
                    proof {
                        lemma_file_at_advances(ts, q);
                    }
                    file_items(ts, e, acc.push(f))
                },
            },
        }
    }
}

/// The list of files at `p`.
pub open spec fn files_at(ts: Seq<TokenView>, p: int) -> Result<(Seq<FileView>, int), Fail> {
    match ts[p] {
        TokenView::List => file_items(ts, p + 1, seq![]),
        t => Err(Fail::Decode(unexpected_token_text("List"@, kind_name(t)))),
    }
}

/// Reading the items of the file list moves forward and stays within the tokens.
pub proof fn lemma_file_items_advances(ts: Seq<TokenView>, q: int, acc: Seq<FileView>)
    ensures
        file_items(ts, q, acc) matches Ok((_, e)) ==> q < e <= ts.len(),
    decreases ts.len() - q,
{
    if 0 <= q < ts.len() {
        match ts[q] {
            TokenView::Error(_) => {},
            TokenView::End => {},
            _ => {
                lemma_file_at_advances(ts, q);
                if let Ok((f, e)) = file_at(ts, q) {
                    lemma_file_items_advances(ts, e, acc.push(f));
                }
            },
        }
    }
}

/// Reading the file list moves forward and stays within the tokens.
pub proof fn lemma_files_at_advances(ts: Seq<TokenView>, p: int)
    requires
        0 <= p < ts.len(),
    ensures
        files_at(ts, p) matches Ok((_, e)) ==> p < e <= ts.len(),
{
    lemma_file_items_advances(ts, p + 1, seq![]);
}

/// The file list from position `ends[k]` on, after the first `k` files, is all the
/// files.
proof fn lemma_file_items_entries(ts: Seq<TokenView>, files: Seq<FileView>, ends: Seq<int>, k: int)
    requires
        0 <= k <= files.len(),
        ends.len() == files.len() + 1,
        forall|i: int| 0 <= i <= files.len() ==> 0 <= #[trigger] ends[i] < ts.len(),
        forall|i: int|
            0 <= i < files.len() ==> file_at(ts, #[trigger] ends[i]) == Ok::<(FileView, int), Fail>(
                (files[i], ends[i + 1]),
            ),
        ts[ends[files.len() as int]] == TokenView::End,
    ensures
        file_items(ts, ends[k], files.take(k)) == Ok::<(Seq<FileView>, int), Fail>(
            (files, ends[files.len() as int] + 1),
        ),
    decreases files.len() - k,
{
    if k == files.len() {
        assert(files.take(k) =~= files);
    } else {
        let q = ends[k];
        assert(file_at(ts, q) == Ok::<(FileView, int), Fail>((files[k], ends[k + 1])));
        assert(ts[q] == TokenView::Dict);
        assert(files.take(k).push(files[k]) =~= files.take(k + 1));
        lemma_file_items_entries(ts, files, ends, k + 1);
    }
}

/// A list of file dictionaries reads as those files, in the order in which they
/// stand: when the dictionary at `ends[i]` reads as `files[i]` and ends before
/// `ends[i + 1]`, and the list's end follows the last, the list is `files`.
pub proof fn lemma_files_at_entries(ts: Seq<TokenView>, p: int, files: Seq<FileView>, ends: Seq<int>)
    requires
        0 <= p,
        ts[p] == TokenView::List,
        ends.len() == files.len() + 1,
        ends[0] == p + 1,
        forall|i: int| 0 <= i <= files.len() ==> 0 <= #[trigger] ends[i] < ts.len(),
        forall|i: int|
            0 <= i < files.len() ==> file_at(ts, #[trigger] ends[i]) == Ok::<(FileView, int), Fail>(
                (files[i], ends[i + 1]),
            ),
        ts[ends[files.len() as int]] == TokenView::End,
    ensures
        files_at(ts, p) == Ok::<(Seq<FileView>, int), Fail>((files, ends[files.len() as int] + 1)),
{
    assert(files.take(0) =~= seq![]);
    lemma_file_items_entries(ts, files, ends, 0);
}

/// The entries of the info dictionary read so far.
pub struct InfoAcc {
    pub name: Option<Seq<char>>,
    pub piece_length: Option<u64>,
    pub pieces: Option<Seq<u8>>,
    pub length: Option<u64>,
    pub files: Option<Seq<FileView>>,
}

/// The info dictionary as plain values.
pub struct InfoView {
    pub name: Seq<char>,
    pub piece_length: u64,
    pub piece_hashes: Seq<Seq<u8>>,
    pub files: Seq<FileView>,
}

pub open spec fn no_info() -> InfoAcc {
    InfoAcc { name: None, piece_length: None, pieces: None, length: None, files: None }
}

/// The 20-byte hashes of the blob `pieces`.
pub open spec fn piece_hashes_of(pieces: Seq<u8>) -> Seq<Seq<u8>> {
    Seq::new((pieces.len() / 20) as nat, |i: int| pieces.subrange(20 * i, 20 * i + 20))
}

/// The checks once the info dictionary is read: name, piece length and piece
/// hashes must be there, the hashes a whole number of 20 bytes; a single `length`
/// makes one file named after the torrent, else `files` must be there.
pub open spec fn finish_info(acc: InfoAcc) -> Result<InfoView, Fail> {
    match acc.name {
        None => Err(Fail::Plain(TorrentError::MissingName)),
        Some(name) => match acc.piece_length {
            None => Err(Fail::Plain(TorrentError::MissingPieceLength)),
            Some(piece_length) => match acc.pieces {
                None => Err(Fail::Plain(TorrentError::MissingPieces)),
                Some(pieces) => if pieces.len() % 20 != 0 {
                    Err(Fail::Plain(TorrentError::BadPiecesLength(pieces.len() as usize)))
                } else {
                    let hashes = piece_hashes_of(pieces);
                    match acc.length {
                        Some(l) => Ok(
                            InfoView {
                                name,
                                piece_length,
                                piece_hashes: hashes,
                                files: seq![FileView { path: seq![name], length: l }],
                            },
                        ),
                        None => match acc.files {
                            Some(files) => Ok(InfoView { name, piece_length, piece_hashes: hashes, files }),
                            None => Err(Fail::Plain(TorrentError::MissingLengthOrFiles)),
                        },
                    }
                },
            },
        },
    }
}

/// The entries of the info dictionary from `q` on, given what was read so far.
pub open spec fn info_pairs(ts: Seq<TokenView>, q: int, acc: InfoAcc) -> Result<(InfoView, int), Fail>
    decreases ts.len() - q,
{
    if q < 0 || q >= ts.len() {
        Err(Fail::Plain(TorrentError::Malformed))
    } else {
        match ts[q] {
            TokenView::Error(m) => Err(Fail::Decode(m)),
            TokenView::End => match finish_info(acc) {
                Err(e) => Err(e),
                Ok(info) => Ok((info, q + 1)),
            },
            TokenView::Bytes(k) => match value_start(ts, q + 1) {
                Err(e) => Err(read_fail(e)),
                Ok(()) => if k == name_key() {
                    match text_at(ts, q + 1) {
                        Err(e) => Err(e),
                        Ok(v) => info_pairs(ts, q + 2, InfoAcc { name: Some(v), ..acc }),
                    }
                } else if k == piece_length_key() {
                    match int_at(ts, q + 1) {
                        Err(e) => Err(e),
                        Ok(v) => info_pairs(ts, q + 2, InfoAcc { piece_length: Some(v), ..acc }),
                    }
                } else if k == pieces_key() {
                    match bytes_at(ts, q + 1) {
                        Err(e) => Err(e),
                        Ok(v) => info_pairs(ts, q + 2, InfoAcc { pieces: Some(v), ..acc }),
                    }
                } else if k == length_key() {
                    match int_at(ts, q + 1) {
                        Err(e) => Err(e),
                        Ok(v) => info_pairs(ts, q + 2, InfoAcc { length: Some(v), ..acc }),
                    }
                } else if k == files_key() {
                    match files_at(ts, q + 1) {
                        Err(e) => Err(e),
                        Ok((f, e)) => {
                            proof {
                                lemma_files_at_advances(ts, q + 1);
                            }
                            info_pairs(ts, e, InfoAcc { files: Some(f), ..acc })
                        },
                    }
                } else {
                    match skip_value(ts, q + 1) {
                        Err(e) => Err(read_fail(e)),
                        Ok(e) => {
                            proof {
                                lemma_skip_from_advances(ts, q + 1, 0);
                            }
                            info_pairs(ts, e, acc)
                        },
                    }
                },
            },
            _ => Err(Fail::Plain(TorrentError::Malformed)),
        }
    }
}

/// The info dictionary at `p`.
pub open spec fn info_at(ts: Seq<TokenView>, p: int) -> Result<(InfoView, int), Fail> {
    match ts[p] {
        TokenView::Dict => info_pairs(ts, p + 1, no_info()),
        t => Err(Fail::Decode(unexpected_token_text("Dict"@, kind_name(t)))),
    }
}

/// Reading the pairs of the info dictionary moves forward and stays within the tokens.
pub proof fn lemma_info_pairs_advances(ts: Seq<TokenView>, q: int, acc: InfoAcc)
    ensures
        info_pairs(ts, q, acc) matches Ok((_, e)) ==> q < e <= ts.len(),
    decreases ts.len() - q,
{
    if 0 <= q < ts.len() {
        if let TokenView::Bytes(k) = ts[q] {
            if value_start(ts, q + 1) is Ok {
                if k == name_key() {
                    if let Ok(v) = text_at(ts, q + 1) {
                        lemma_info_pairs_advances(ts, q + 2, InfoAcc { name: Some(v), ..acc });
                    }
                } else if k == piece_length_key() {
                    if let Ok(v) = int_at(ts, q + 1) {
                        lemma_info_pairs_advances(ts, q + 2, InfoAcc { piece_length: Some(v), ..acc });
                    }
                } else if k == pieces_key() {
                    if let Ok(v) = bytes_at(ts, q + 1) {
                        lemma_info_pairs_advances(ts, q + 2, InfoAcc { pieces: Some(v), ..acc });
                    }
                } else if k == length_key() {
                    if let Ok(v) = int_at(ts, q + 1) {
                        lemma_info_pairs_advances(ts, q + 2, InfoAcc { length: Some(v), ..acc });
                    }
                } else if k == files_key() {
                    lemma_files_at_advances(ts, q + 1);
                    if let Ok((f, e)) = files_at(ts, q + 1) {
                        lemma_info_pairs_advances(ts, e, InfoAcc { files: Some(f), ..acc });
                    }
                } else {
                    lemma_skip_from_advances(ts, q + 1, 0);
                    if let Ok(e) = skip_value(ts, q + 1) {
                        lemma_info_pairs_advances(ts, e, acc);
                    }
                }
            }
        }
    }
}

/// Reading the info dictionary moves forward and stays within the tokens.
pub proof fn lemma_info_at_advances(ts: Seq<TokenView>, p: int)
    requires
        0 <= p < ts.len(),
    ensures
        info_at(ts, p) matches Ok((_, e)) ==> p < e <= ts.len(),
{
    lemma_info_pairs_advances(ts, p + 1, no_info());
}

/// The entries of the top-level dictionary from `q` on: the announce URL and the
/// info dictionary, each the last one read.
pub open spec fn root_pairs(
    ts: Seq<TokenView>,
    q: int,
    announce: Option<Seq<char>>,
    info: Option<InfoView>,
) -> Result<(Option<Seq<char>>, InfoView), Fail>
    decreases ts.len() - q,
{
    if q < 0 || q >= ts.len() {
        Err(Fail::Plain(TorrentError::Malformed))
    } else {
        match ts[q] {
            TokenView::Error(m) => Err(Fail::Decode(m)),
            TokenView::End => match info {
                None => Err(Fail::Plain(TorrentError::MissingInfo)),
                Some(i) => Ok((announce, i)),
            },
            TokenView::Bytes(k) => match value_start(ts, q + 1) {
                Err(e) => Err(read_fail(e)),
                Ok(()) => if k == announce_key() {
                    match text_at(ts, q + 1) {
                        Err(e) => Err(e),
                        Ok(v) => root_pairs(ts, q + 2, Some(v), info),
                    }
                } else if k == info_key() {
                    match info_at(ts, q + 1) {
                        Err(e) => Err(e),
                        Ok((i, e)) => {
                            proof {
                                lemma_info_at_advances(ts, q + 1);
                            }
                            root_pairs(ts, e, announce, Some(i))
                        },
                    }
                } else {
                    match skip_value(ts, q + 1) {
                        Err(e) => Err(read_fail(e)),
                        Ok(e) => {
                            proof {
                                lemma_skip_from_advances(ts, q + 1, 0);
                            }
                            root_pairs(ts, e, announce, info)
                        },
                    }
                },
            },
            _ => Err(Fail::Plain(TorrentError::Malformed)),
        }
    }
}

/// The metainfo that the tokens `ts` of a torrent file describe, with `info_hash`
/// as its info hash.
pub open spec fn spec_metadata(ts: Seq<TokenView>, info_hash: Seq<u8>) -> Result<MetaView, Fail> {
    if ts.len() == 0 {
        Err(Fail::Plain(TorrentError::Empty))
    } else {
        match ts[0] {
            TokenView::Error(m) => Err(Fail::Decode(m)),
            TokenView::End => Err(Fail::Plain(TorrentError::Empty)),
            TokenView::Dict => match root_pairs(ts, 1, None, None) {
                Err(e) => Err(e),
                Ok((announce, info)) => Ok(
                    MetaView {
                        announce,
                        name: info.name,
                        piece_length: info.piece_length,
                        piece_hashes: info.piece_hashes,
                        files: info.files,
                        info_hash,
                    },
                ),
            },
            t => Err(Fail::Decode(unexpected_token_text("Dict"@, kind_name(t)))),
        }
    }
}

pub open spec fn opt_msg(e: Option<String>) -> Option<Seq<char>> {
    match e {
        Some(m) => Some(m@),
        None => None,
    }
}

/// The error for a failure of the token reader.
fn read_error(e: Option<String>) -> (r: TorrentError)
    ensures
        error_view(r) == read_fail(opt_msg(e)),
{
    match e {
        Some(m) => TorrentError::Decode(m),
        None => TorrentError::Malformed,
    }
}

/// Reads the byte string at `p` as UTF-8 text.
fn text_value(ts: &[Token], p: usize) -> (r: Result<String, TorrentError>)
    requires
        p < ts@.len(),
    ensures
        match text_at(token_views(ts@), p as int) {
            Ok(v) => r matches Ok(x) && x@ == v,
            Err(f) => r matches Err(x) && error_view(x) == f,
        },
{
    match &ts[p] {
        Token::Bytes(b) => {
            let owned = b.clone();
            assert(owned@ =~= b@);
            match string_from_utf8(owned) {
                Some(text) => Ok(text),
                None => Err(TorrentError::InvalidUtf8),
            }
        },
        t => Err(TorrentError::Decode(unexpected("String", t))),
    }
}

/// Reads the integer at `p` as a `u64`.
fn int_value(ts: &[Token], p: usize) -> (r: Result<u64, TorrentError>)
    requires
        p < ts@.len(),
    ensures
        match int_at(token_views(ts@), p as int) {
            Ok(v) => r == Ok::<u64, TorrentError>(v),
            Err(f) => r matches Err(x) && error_view(x) == f,
        },
{
    match &ts[p] {
        Token::Num(d) => match parse_u64(d.as_slice()) {
            Some(v) => Ok(v),
            None => {
                let owned = d.clone();
                assert(owned@ =~= d@);
                Err(TorrentError::InvalidInteger(owned))
            },
        },
        t => Err(TorrentError::Decode(unexpected("Num", t))),
    }
}

/// Reads the byte string at `p`.
fn bytes_value(ts: &[Token], p: usize) -> (r: Result<Vec<u8>, TorrentError>)
    requires
        p < ts@.len(),
    ensures
        match bytes_at(token_views(ts@), p as int) {
            Ok(v) => r matches Ok(x) && x@ == v,
            Err(f) => r matches Err(x) && error_view(x) == f,
        },
{
    match &ts[p] {
        Token::Bytes(b) => {
            let owned = b.clone();
            assert(owned@ =~= b@);
            Ok(owned)
        },
        t => Err(TorrentError::Decode(unexpected("String", t))),
    }
}

/// Reads the path list at `p`.
fn path_value(ts: &[Token], p: usize) -> (r: Result<(Vec<String>, usize), TorrentError>)
    requires
        p < ts@.len(),
    ensures
        match path_at(token_views(ts@), p as int) {
            Ok((v, e)) => r matches Ok((x, m)) && strings_view(x@) == v && m == e,
            Err(f) => r matches Err(x) && error_view(x) == f,
        },
{
    let ghost views = token_views(ts@);
    match &ts[p] {
        Token::List => {},
        t => {
            return Err(TorrentError::Decode(unexpected("List", t)));
        },
    }
    let mut parts: Vec<String> = Vec::new();
    let mut q: usize = p + 1;
    assert(strings_view(parts@) =~= seq![]);
    loop
        invariant
            views == token_views(ts@),
            p < q <= ts@.len(),
            path_at(views, p as int) == path_items(views, q as int, strings_view(parts@)),
        decreases ts@.len() - q,
    {
        if q >= ts.len() {
            return Err(TorrentError::Malformed);
        }
        match &ts[q] {
            Token::Error(m) => {
                return Err(TorrentError::Decode(m.clone()));
            },
            Token::End => {
                return Ok((parts, q + 1));
            },
            _ => {
                let text = text_value(ts, q)?;
                let ghost before = strings_view(parts@);
                parts.push(text);
                assert(strings_view(parts@) =~= before.push(text@));
                q = q + 1;
            },
        }
    }
}

/// Reads the file dictionary at `p`.
fn file_value(ts: &[Token], p: usize) -> (r: Result<(FileEntry, usize), TorrentError>)
    requires
        p < ts@.len(),
    ensures
        match file_at(token_views(ts@), p as int) {
            Ok((v, e)) => r matches Ok((x, m)) && file_view(x) == v && m == e,
            Err(f) => r matches Err(x) && error_view(x) == f,
        },
{
    let ghost views = token_views(ts@);
    match &ts[p] {
        Token::Dict => {},
        t => {
            return Err(TorrentError::Decode(unexpected("Dict", t)));
        },
    }
    let length_k: [u8; 6] = [108u8, 101, 110, 103, 116, 104];
    let path_k: [u8; 4] = [112u8, 97, 116, 104];
    assert(length_k@ =~= length_key());
    assert(path_k@ =~= path_key());
    let mut length: Option<u64> = None;
    let mut path: Option<Vec<String>> = None;
    let mut q: usize = p + 1;
    loop
        invariant
            views == token_views(ts@),
            p < q <= ts@.len(),
            length_k@ == length_key(),
            path_k@ == path_key(),
            file_at(views, p as int) == file_pairs(
                views,
                q as int,
                length,
                match path {
                    Some(v) => Some(strings_view(v@)),
                    None => None,
                },
            ),
        decreases ts@.len() - q,
    {
        if q >= ts.len() {
            return Err(TorrentError::Malformed);
        }
        match &ts[q] {
            Token::Error(m) => {
                return Err(TorrentError::Decode(m.clone()));
            },
            Token::End => {
                let l = match length {
                    Some(l) => l,
                    None => {
                        return Err(TorrentError::MissingFileLength);
                    },
                };
                let parts = match path {
                    Some(parts) => parts,
                    None => {
                        return Err(TorrentError::MissingFilePath);
                    },
                };
                return Ok((FileEntry { path: parts, length: l }, q + 1));
            },
            Token::Bytes(k) => {
                match check_value_start(ts, q + 1) {
                    Ok(()) => {},
                    Err(e) => {
                        return Err(read_error(e));
                    },
                }
                if bytes_equal(k.as_slice(), &length_k) {
                    let v = int_value(ts, q + 1)?;
                    length = Some(v);
                    q = q + 2;
                } else if bytes_equal(k.as_slice(), &path_k) {
                    let (parts, e) = path_value(ts, q + 1)?;
                    proof {
                        lemma_path_at_advances(views, q + 1);
                    }
                    path = Some(parts);
                    q = e;
                } else {
                    let e = match skip(ts, q + 1) {
                        Ok(e) => e,
                        Err(e) => {
                            return Err(read_error(e));
                        },
                    };
                    proof {
                        lemma_skip_from_advances(views, q + 1, 0);
                    }
                    q = e;
                }
            },
            _ => {
                return Err(TorrentError::Malformed);
            },
        }
    }
}

/// Reads the list of file dictionaries at `p`.
fn files_value(ts: &[Token], p: usize) -> (r: Result<(Vec<FileEntry>, usize), TorrentError>)
    requires
        p < ts@.len(),
    ensures
        match files_at(token_views(ts@), p as int) {
            Ok((v, e)) => r matches Ok((x, m)) && files_view(x@) == v && m == e,
            Err(f) => r matches Err(x) && error_view(x) == f,
        },
{
    let ghost views = token_views(ts@);
    match &ts[p] {
        Token::List => {},
        t => {
            return Err(TorrentError::Decode(unexpected("List", t)));
        },
    }
    let mut files: Vec<FileEntry> = Vec::new();
    let mut q: usize = p + 1;
    assert(files_view(files@) =~= seq![]);
    loop
        invariant
            views == token_views(ts@),
            p < q <= ts@.len(),
            files_at(views, p as int) == file_items(views, q as int, files_view(files@)),
        decreases ts@.len() - q,
    {
        if q >= ts.len() {
            return Err(TorrentError::Malformed);
        }
        match &ts[q] {
            Token::Error(m) => {
                return Err(TorrentError::Decode(m.clone()));
            },
            Token::End => {
                return Ok((files, q + 1));
            },
            _ => {
                let (file, e) = file_value(ts, q)?;
                proof {
                    lemma_file_at_advances(views, q as int);
                }
                let ghost before = files_view(files@);
                files.push(file);
                assert(files_view(files@) =~= before.push(file_view(file)));
                q = e;
            },
        }
    }
}

/// The info dictionary of a torrent.
struct ParsedInfo {
    name: String,
    piece_length: u64,
    piece_hashes: Vec<[u8; 20]>,
    files: Vec<FileEntry>,
}

spec fn info_view(i: ParsedInfo) -> InfoView {
    InfoView {
        name: i.name@,
        piece_length: i.piece_length,
        piece_hashes: hashes_view(i.piece_hashes@),
        files: files_view(i.files@),
    }
}

spec fn info_acc_view(
    name: Option<String>,
    piece_length: Option<u64>,
    pieces: Option<Vec<u8>>,
    length: Option<u64>,
    files: Option<Vec<FileEntry>>,
) -> InfoAcc {
    InfoAcc {
        name: opt_text(name),
        piece_length,
        pieces: match pieces {
            Some(p) => Some(p@),
            None => None,
        },
        length,
        files: match files {
            Some(f) => Some(files_view(f@)),
            None => None,
        },
    }
}

/// Checks what the info dictionary held once it is read.
fn finish_info_value(
    name: Option<String>,
    piece_length: Option<u64>,
    pieces: Option<Vec<u8>>,
    length: Option<u64>,
    files: Option<Vec<FileEntry>>,
) -> (r: Result<ParsedInfo, TorrentError>)
    ensures
        match finish_info(info_acc_view(name, piece_length, pieces, length, files)) {
            Ok(v) => r matches Ok(x) && info_view(x) == v,
            Err(f) => r matches Err(x) && error_view(x) == f,
        },
{
    let name = match name {
        Some(n) => n,
        None => {
            return Err(TorrentError::MissingName);
        },
    };
    let piece_length = match piece_length {
        Some(l) => l,
        None => {
            return Err(TorrentError::MissingPieceLength);
        },
    };
    let pieces = match pieces {
        Some(p) => p,
        None => {
            return Err(TorrentError::MissingPieces);
        },
    };
    if pieces.len() % 20 != 0 {
        return Err(TorrentError::BadPiecesLength(pieces.len()));
    }
    let mut piece_hashes: Vec<[u8; 20]> = Vec::new();
    let mut i: usize = 0;
    while i < pieces.len() / 20
        invariant
            pieces@.len() % 20 == 0,
            i <= pieces@.len() / 20,
            piece_hashes@.len() == i,
            forall|j: int| 0 <= j < i ==> (#[trigger] piece_hashes@[j])@ == piece_hashes_of(pieces@)[j],
        decreases pieces.len() / 20 - i,
    {
        let h = array20_at(pieces.as_slice(), 20 * i);
        piece_hashes.push(h);
        i += 1;
    }
    assert(hashes_view(piece_hashes@) =~= piece_hashes_of(pieces@));
    let files = match length {
        Some(l) => {
            let single = vec![FileEntry { path: vec![name.clone()], length: l }];
            assert(strings_view(single@[0].path@) =~= seq![name@]);
            assert(files_view(single@) =~= seq![FileView { path: seq![name@], length: l }]);
            single
        },
        None => match files {
            Some(f) => f,
            None => {
                return Err(TorrentError::MissingLengthOrFiles);
            },
        },
    };
    Ok(ParsedInfo { name, piece_length, piece_hashes, files })
}

/// Reads the info dictionary at `p`.
fn info_value(ts: &[Token], p: usize) -> (r: Result<(ParsedInfo, usize), TorrentError>)
    requires
        p < ts@.len(),
    ensures
        match info_at(token_views(ts@), p as int) {
            Ok((v, e)) => r matches Ok((x, m)) && info_view(x) == v && m == e,
            Err(f) => r matches Err(x) && error_view(x) == f,
        },
{
    let ghost views = token_views(ts@);
    match &ts[p] {
        Token::Dict => {},
        t => {
            return Err(TorrentError::Decode(unexpected("Dict", t)));
        },
    }
    let name_k: [u8; 4] = [110u8, 97, 109, 101];
    let piece_length_k: [u8; 12] = [112u8, 105, 101, 99, 101, 32, 108, 101, 110, 103, 116, 104];
    let pieces_k: [u8; 6] = [112u8, 105, 101, 99, 101, 115];
    let length_k: [u8; 6] = [108u8, 101, 110, 103, 116, 104];
    let files_k: [u8; 5] = [102u8, 105, 108, 101, 115];
    assert(name_k@ =~= name_key());
    assert(piece_length_k@ =~= piece_length_key());
    assert(pieces_k@ =~= pieces_key());
    assert(length_k@ =~= length_key());
    assert(files_k@ =~= files_key());
    let mut name: Option<String> = None;
    let mut piece_length: Option<u64> = None;
    let mut pieces: Option<Vec<u8>> = None;
    let mut length: Option<u64> = None;
    let mut files: Option<Vec<FileEntry>> = None;
    let mut q: usize = p + 1;
    loop
        invariant
            views == token_views(ts@),
            p < q <= ts@.len(),
            name_k@ == name_key(),
            piece_length_k@ == piece_length_key(),
            pieces_k@ == pieces_key(),
            length_k@ == length_key(),
            files_k@ == files_key(),
            info_at(views, p as int) == info_pairs(
                views,
                q as int,
                info_acc_view(name, piece_length, pieces, length, files),
            ),
        decreases ts@.len() - q,
    {
        if q >= ts.len() {
            return Err(TorrentError::Malformed);
        }
        match &ts[q] {
            Token::Error(m) => {
                return Err(TorrentError::Decode(m.clone()));
            },
            Token::End => {
                let info = finish_info_value(name, piece_length, pieces, length, files)?;
                return Ok((info, q + 1));
            },
            Token::Bytes(k) => {
                match check_value_start(ts, q + 1) {
                    Ok(()) => {},
                    Err(e) => {
                        return Err(read_error(e));
                    },
                }
                if bytes_equal(k.as_slice(), &name_k) {
                    name = Some(text_value(ts, q + 1)?);
                    q = q + 2;
                } else if bytes_equal(k.as_slice(), &piece_length_k) {
                    piece_length = Some(int_value(ts, q + 1)?);
                    q = q + 2;
                } else if bytes_equal(k.as_slice(), &pieces_k) {
                    pieces = Some(bytes_value(ts, q + 1)?);
                    q = q + 2;
                } else if bytes_equal(k.as_slice(), &length_k) {
                    length = Some(int_value(ts, q + 1)?);
                    q = q + 2;
                } else if bytes_equal(k.as_slice(), &files_k) {
                    let (f, e) = files_value(ts, q + 1)?;
                    proof {
                        lemma_files_at_advances(views, q + 1);
                    }
                    files = Some(f);
                    q = e;
                } else {
                    let e = match skip(ts, q + 1) {
                        Ok(e) => e,
                        Err(e) => {
                            return Err(read_error(e));
                        },
                    };
                    proof {
                        lemma_skip_from_advances(views, q + 1, 0);
                    }
                    q = e;
                }
            },
            _ => {
                return Err(TorrentError::Malformed);
            },
        }
    }
}

impl TorrentMetadata {
    /// The metainfo that the tokens of a torrent file describe, with `info_hash`
    /// as its info hash.
    pub fn from_tokens(tokens: &[Token], info_hash: [u8; 20]) -> (r: Result<TorrentMetadata, TorrentError>)
        ensures
            match spec_metadata(token_views(tokens@), info_hash@) {
                Ok(v) => r matches Ok(x) && meta_view(x) == v,
                Err(f) => r matches Err(x) && error_view(x) == f,
            },
    {
        let ghost views = token_views(tokens@);
        if tokens.len() == 0 {
            return Err(TorrentError::Empty);
        }
        match &tokens[0] {
            Token::Error(m) => {
                return Err(TorrentError::Decode(m.clone()));
            },
            Token::End => {
                return Err(TorrentError::Empty);
            },
            Token::Dict => {},
            t => {
                return Err(TorrentError::Decode(unexpected("Dict", t)));
            },
        }
        let announce_k: [u8; 8] = [97u8, 110, 110, 111, 117, 110, 99, 101];
        let info_k: [u8; 4] = [105u8, 110, 102, 111];
        assert(announce_k@ =~= announce_key());
        assert(info_k@ =~= info_key());
        let mut announce: Option<String> = None;
        let mut info: Option<ParsedInfo> = None;
        let mut q: usize = 1;
        loop
            invariant
                views == token_views(tokens@),
                1 <= q <= tokens@.len(),
                announce_k@ == announce_key(),
                info_k@ == info_key(),
                spec_metadata(views, info_hash@) == (match root_pairs(
                    views,
                    q as int,
                    opt_text(announce),
                    match info {
                        Some(i) => Some(info_view(i)),
                        None => None,
                    },
                ) {
                    Err(e) => Err(e),
                    Ok((a, i)) => Ok(
                        MetaView {
                            announce: a,
                            name: i.name,
                            piece_length: i.piece_length,
                            piece_hashes: i.piece_hashes,
                            files: i.files,
                            info_hash: info_hash@,
                        },
                    ),
                }),
            decreases tokens@.len() - q,
        {
            if q >= tokens.len() {
                return Err(TorrentError::Malformed);
            }
            match &tokens[q] {
                Token::Error(m) => {
                    return Err(TorrentError::Decode(m.clone()));
                },
                Token::End => {
                    let i = match info {
                        Some(i) => i,
                        None => {
                            return Err(TorrentError::MissingInfo);
                        },
                    };
                    return Ok(
                        TorrentMetadata {
                            announce,
                            name: i.name,
                            piece_length: i.piece_length,
                            piece_hashes: i.piece_hashes,
                            files: i.files,
                            info_hash,
                        },
                    );
                },
                Token::Bytes(k) => {
                    match check_value_start(tokens, q + 1) {
                        Ok(()) => {},
                        Err(e) => {
                            return Err(read_error(e));
                        },
                    }
                    if bytes_equal(k.as_slice(), &announce_k) {
                        announce = Some(text_value(tokens, q + 1)?);
                        q = q + 2;
                    } else if bytes_equal(k.as_slice(), &info_k) {
                        let (i, e) = info_value(tokens, q + 1)?;
                        proof {
                            lemma_info_at_advances(views, q + 1);
                        }
                        info = Some(i);
                        q = e;
                    } else {
                        let e = match skip(tokens, q + 1) {
                            Ok(e) => e,
                            Err(e) => {
                                return Err(read_error(e));
                            },
                        };
                        proof {
                            lemma_skip_from_advances(views, q + 1, 0);
                        }
                        q = e;
                    }
                },
                _ => {
                    return Err(TorrentError::Malformed);
                },
            }
        }
    }

    /// Reads a `.torrent` file: its info hash is the SHA-1 of the raw info
    /// dictionary, the rest comes from `bendy`'s tokens of the file.
    pub fn from_bytes(data: &[u8]) -> (r: Result<TorrentMetadata, TorrentError>)
        ensures
            match spec_info_dict(data@) {
                Err(e) => r matches Err(x) && x == TorrentError::Bencode(e),
                Ok(info) => match spec_metadata(bendy_tokens(data@), sha1(info)) {
                    Ok(v) => r matches Ok(x) && meta_view(x) == v,
                    Err(f) => r matches Err(x) && error_view(x) == f,
                },
            },
    {
        let hash = match info_hash(data) {
            Ok(h) => h,
            Err(e) => {
                return Err(TorrentError::Bencode(e));
            },
        };
        let tokens = decode_tokens(data);
        TorrentMetadata::from_tokens(tokens.as_slice(), hash)
    }
}

/// The total length of the files `files`.
pub open spec fn files_total(files: Seq<FileView>) -> int
    decreases files.len(),
{
    if files.len() == 0 {
        0
    } else {
        files_total(files.drop_last()) + files.last().length
    }
}

proof fn lemma_files_total_prefix(files: Seq<FileView>, i: int)
    requires
        0 <= i <= files.len(),
    ensures
        files_total(files.take(i)) <= files_total(files),
    decreases files.len(),
{
    if i < files.len() {
        assert(files.drop_last().take(i) =~= files.take(i));
        lemma_files_total_prefix(files.drop_last(), i);
    } else {
        assert(files.take(i) =~= files);
    }
}

impl TorrentMetadata {
    /// The sum of the file lengths, or `None` where it does not fit in a `u64`.
    pub fn checked_total_size(&self) -> (r: Option<u64>)
        ensures
            match r {
                Some(n) => n == files_total(meta_view(*self).files),
                None => files_total(meta_view(*self).files) > u64::MAX,
            },
    {
        let ghost files = meta_view(*self).files;
        let mut total: u64 = 0;
        let mut i: usize = 0;
        while i < self.files.len()
            invariant
                i <= self.files@.len(),
                files == files_view(self.files@),
                total == files_total(files.take(i as int)),
            decreases self.files.len() - i,
        {
            assert(files.take(i + 1).drop_last() =~= files.take(i as int));
            let length = self.files[i].length;
            if total > u64::MAX - length {
                proof {
                    lemma_files_total_prefix(files, i + 1);
                }
                return None;
            }
            total = total + length;
            i += 1;
        }
        assert(files.take(self.files@.len() as int) =~= files);
        Some(total)
    }

    /// The sum of the file lengths.
    pub fn total_size(&self) -> (n: u64)
        requires
            files_total(meta_view(*self).files) <= u64::MAX,
        ensures
            n == files_total(meta_view(*self).files),
    {
        match self.checked_total_size() {
            Some(n) => n,
            None => 0,
        }
    }

    /// The number of pieces.
    pub fn piece_count(&self) -> (n: usize)
        ensures
            n == meta_view(*self).piece_hashes.len(),
    {
        self.piece_hashes.len()
    }
}

} // verus!
