//! The state of the graphical client and how it changes: what the buttons allow,
//! what each message of the background task does, and the text shown.
use vstd::prelude::*;
use crate::addr::PeerAddr;
use crate::download::DownloadProgress;
use crate::text::{decimal, push_decimal, push_str, string_of};
use crate::torrent::{files_total, meta_view, TorrentMetadata};
use crate::random::client_tag;
use crate::tracker::generate_peer_id;
use crate::{format_bytes, hex_encode, spec_format_bytes, spec_hex_encode, DiscoverConfig};

verus! {

/// How many log lines the client keeps.
pub const MAX_LOG_LINES: usize = 200;

/// A message from the background task.
#[derive(Debug, Clone)]
pub enum WorkerMessage {
    Log(String),
    Peers(Vec<PeerAddr>),
    Progress(DownloadProgress),
    /// The download is complete, in the directory shown by this text.
    Finished(String),
    Failed(String),
}

/// The state of the graphical client.
#[derive(Debug, Clone)]
pub struct TorrentApp {
    pub peer_id: [u8; 20],
    pub torrent_path: Option<String>,
    pub metadata: Option<TorrentMetadata>,
    pub output_dir: String,
    pub peers: Vec<PeerAddr>,
    /// Whether a background task runs.
    pub busy: bool,
    pub progress: DownloadProgress,
    pub status: String,
    pub logs: Vec<String>,
    pub use_dht: bool,
    pub download_complete: bool,
}

/// `logs` with `line` added at the end, dropping the oldest line past the limit.
pub open spec fn logged(logs: Seq<Seq<char>>, line: Seq<char>) -> Seq<Seq<char>> {
    let longer = logs.push(line);
    if longer.len() > MAX_LOG_LINES {
        longer.drop_first()
    } else {
        longer
    }
}

pub open spec fn log_view(logs: Seq<String>) -> Seq<Seq<char>> {
    Seq::new(logs.len(), |i: int| logs[i]@)
}

pub open spec fn empty_progress() -> DownloadProgress {
    DownloadProgress { current_piece: 0, total_pieces: 0, downloaded_bytes: 0, total_bytes: 0 }
}

impl TorrentApp {
    /// A client with nothing loaded.
    pub fn new() -> (app: TorrentApp)
        ensures
            app.torrent_path is None,
            app.metadata is None,
            app.output_dir@ == "downloads"@,
            app.peers@.len() == 0,
            !app.busy,
            app.progress == empty_progress(),
            app.status@ == "Open a .torrent file to begin."@,
            app.logs@.len() == 0,
            app.use_dht,
            !app.download_complete,
            app.peer_id@.take(8) == client_tag(),
    {
        TorrentApp {
            peer_id: generate_peer_id(),
            torrent_path: None,
            metadata: None,
            output_dir: string_of("downloads"),
            peers: Vec::new(),
            busy: false,
            progress: DownloadProgress { current_piece: 0, total_pieces: 0, downloaded_bytes: 0, total_bytes: 0 },
            status: string_of("Open a .torrent file to begin."),
            logs: Vec::new(),
            use_dht: true,
            download_complete: false,
        }
    }

    /// Adds a line to the log, dropping the oldest one past the limit.
    pub fn push_log(&mut self, line: String)
        ensures
            log_view(final(self).logs@) == logged(log_view(old(self).logs@), line@),
            *final(self) == (TorrentApp { logs: final(self).logs, ..*old(self) }),
    {
        let ghost before = log_view(self.logs@);
        let ghost text = line@;
        self.logs.push(line);
        assert(log_view(self.logs@) =~= before.push(text));
        if self.logs.len() > MAX_LOG_LINES {
            let ghost longer = log_view(self.logs@);
            self.logs.remove(0);
            assert(log_view(self.logs@) =~= longer.drop_first());
        }
    }

    /// Whether `Open .torrent` is enabled.
    pub fn can_open(&self) -> (b: bool)
        ensures
            b == !self.busy,
    {
        !self.busy
    }

    /// Whether `Find peers` and `Output...` are enabled.
    pub fn can_find_peers(&self) -> (b: bool)
        ensures
            b == (!self.busy && self.metadata is Some),
    {
        !self.busy && self.metadata.is_some()
    }

    /// Whether `Download` is enabled.
    pub fn can_download(&self) -> (b: bool)
        ensures
            b == (!self.busy && self.metadata is Some && self.peers@.len() > 0),
    {
        !self.busy && self.metadata.is_some() && self.peers.len() > 0
    }

    /// Takes in a message of the background task; returns whether the task is over.
    pub fn receive(&mut self, message: WorkerMessage) -> (done: bool)
        ensures
            match message {
                WorkerMessage::Log(line) => !done && log_view(final(self).logs@) == logged(
                    log_view(old(self).logs@),
                    line@,
                ) && *final(self) == (TorrentApp { logs: final(self).logs, ..*old(self) }),
                WorkerMessage::Peers(peers) => !done && final(self).peers@ == peers@ && final(self).status@
                    == "Found "@ + decimal(peers@.len()) + " peers"@ && log_view(final(self).logs@) == logged(
                    log_view(old(self).logs@),
                    final(self).status@,
                ) && *final(self) == (TorrentApp {
                    peers: final(self).peers,
                    status: final(self).status,
                    logs: final(self).logs,
                    ..*old(self)
                }),
                WorkerMessage::Progress(p) => !done && final(self).status@ == "Downloading piece "@ + decimal(
                    p.current_piece as nat,
                ) + "/"@ + decimal(p.total_pieces as nat) && *final(self) == (TorrentApp {
                    progress: p,
                    status: final(self).status,
                    ..*old(self)
                }),
                WorkerMessage::Finished(dir) => done && final(self).status@ == "Download complete: "@ + dir@
                    && log_view(final(self).logs@) == logged(log_view(old(self).logs@), final(self).status@)
                    && *final(self) == (TorrentApp {
                    download_complete: true,
                    busy: false,
                    status: final(self).status,
                    logs: final(self).logs,
                    ..*old(self)
                }),
                WorkerMessage::Failed(message) => done && final(self).status@ == message@ && log_view(
                    final(self).logs@,
                ) == logged(log_view(old(self).logs@), "Error: "@ + message@) && *final(self) == (TorrentApp {
                    busy: false,
                    status: final(self).status,
                    logs: final(self).logs,
                    ..*old(self)
                }),
            },
    {
        match message {
            WorkerMessage::Log(line) => {
                self.push_log(line);
                false
            },
            WorkerMessage::Peers(peers) => {
                let mut status = string_of("Found ");
                push_decimal(&mut status, peers.len() as u64);
                push_str(&mut status, " peers");
                self.peers = peers;
                self.status = status.clone();
                self.push_log(status);
                false
            },
            WorkerMessage::Progress(p) => {
                let mut status = string_of("Downloading piece ");
                push_decimal(&mut status, p.current_piece as u64);
                push_str(&mut status, "/");
                push_decimal(&mut status, p.total_pieces as u64);
                self.progress = p;
                self.status = status;
                false
            },
            WorkerMessage::Finished(dir) => {
                let mut status = string_of("Download complete: ");
                push_str(&mut status, dir.as_str());
                self.download_complete = true;
                self.status = status.clone();
                self.push_log(status);
                self.busy = false;
                true
            },
            WorkerMessage::Failed(message) => {
                let mut line = string_of("Error: ");
                push_str(&mut line, message.as_str());
                self.status = message;
                self.push_log(line);
                self.busy = false;
                true
            },
        }
    }

    /// The background task went away without a word.
    pub fn worker_lost(&mut self)
        ensures
            final(self).status@ == "Background task ended unexpectedly."@,
            *final(self) == (TorrentApp { status: final(self).status, busy: false, ..*old(self) }),
    {
        self.status = string_of("Background task ended unexpectedly.");
        self.busy = false;
    }

    /// A torrent file was loaded from the file shown as `path`; its files hold
    /// `total` bytes.
    pub fn loaded(&mut self, metadata: TorrentMetadata, path: String, total: u64)
        ensures
            final(self).output_dir@ == metadata.name@,
            final(self).torrent_path matches Some(p) && p@ == path@,
            final(self).metadata == Some(metadata),
            final(self).peers@.len() == 0,
            !final(self).download_complete,
            final(self).progress == (DownloadProgress {
                current_piece: 0,
                total_pieces: metadata.piece_hashes@.len() as usize,
                downloaded_bytes: 0,
                total_bytes: total,
            }),
            final(self).status@ == "Loaded "@ + path@,
            log_view(final(self).logs@) == logged(log_view(old(self).logs@), "Loaded "@ + path@),
            *final(self) == (TorrentApp {
                output_dir: final(self).output_dir,
                torrent_path: final(self).torrent_path,
                metadata: final(self).metadata,
                peers: final(self).peers,
                download_complete: false,
                progress: final(self).progress,
                status: final(self).status,
                logs: final(self).logs,
                ..*old(self)
            }),
    {
        let mut status = string_of("Loaded ");
        push_str(&mut status, path.as_str());
        self.output_dir = metadata.name.clone();
        self.torrent_path = Some(path);
        self.progress = DownloadProgress {
            current_piece: 0,
            total_pieces: metadata.piece_hashes.len(),
            downloaded_bytes: 0,
            total_bytes: total,
        };
        self.metadata = Some(metadata);
        self.peers = Vec::new();
        self.download_complete = false;
        self.status = status.clone();
        self.push_log(status);
    }

    /// Loading a torrent failed with the message `error`.
    pub fn load_failed(&mut self, error: &str)
        ensures
            final(self).status@ == "Failed to load torrent: "@ + error@,
            log_view(final(self).logs@) == logged(log_view(old(self).logs@), final(self).status@),
            *final(self) == (TorrentApp { status: final(self).status, logs: final(self).logs, ..*old(self) }),
    {
        let mut status = string_of("Failed to load torrent: ");
        push_str(&mut status, error);
        self.status = status.clone();
        self.push_log(status);
    }

    /// The output directory was changed to the one shown as `dir`.
    pub fn output_picked(&mut self, dir: String)
        ensures
            final(self).output_dir@ == dir@,
            log_view(final(self).logs@) == logged(log_view(old(self).logs@), "Output directory: "@ + dir@),
            *final(self) == (TorrentApp { output_dir: final(self).output_dir, logs: final(self).logs, ..*old(self) }),
    {
        let mut line = string_of("Output directory: ");
        push_str(&mut line, dir.as_str());
        self.output_dir = dir;
        self.push_log(line);
    }

    /// `Find peers`: with a torrent loaded, the task starts with the configuration
    /// returned (the tracker when the torrent names one, the DHT when chosen).
    pub fn start_find_peers(&mut self) -> (r: Option<DiscoverConfig>)
        ensures
            old(self).metadata is None ==> r is None && *final(self) == *old(self),
            old(self).metadata matches Some(m) ==> r == Some(
                DiscoverConfig { use_tracker: m.announce is Some, use_dht: old(self).use_dht, port: 6881 },
            ) && final(self).status@ == "Finding peers..."@ && log_view(final(self).logs@) == logged(
                log_view(old(self).logs@),
                "Finding peers..."@,
            ) && *final(self) == (TorrentApp {
                busy: true,
                status: final(self).status,
                logs: final(self).logs,
                ..*old(self)
            }),
    {
        let config = match &self.metadata {
            Some(m) => DiscoverConfig { use_tracker: m.announce.is_some(), use_dht: self.use_dht, port: 6881 },
            None => {
                return None;
            },
        };
        self.status = string_of("Finding peers...");
        self.push_log(string_of("Finding peers..."));
        self.busy = true;
        Some(config)
    }

    /// `Download`: with a torrent loaded and peers found, the task starts on those
    /// peers and the output directory; its files hold `total` bytes.
    pub fn start_download(&mut self, total: u64) -> (r: Option<(Vec<PeerAddr>, String)>)
        ensures
            old(self).metadata is None ==> r is None && *final(self) == *old(self),
            old(self).metadata is Some && old(self).peers@.len() == 0 ==> r is None && final(self).status@
                == "Find peers before downloading."@ && *final(self) == (TorrentApp {
                status: final(self).status,
                ..*old(self)
            }),
            old(self).metadata is Some && old(self).peers@.len() > 0 ==> (r matches Some((p, dir)) && p@
                == old(self).peers@ && dir == old(self).output_dir) && final(self).progress == (DownloadProgress {
                current_piece: 0,
                total_pieces: old(self).metadata->Some_0.piece_hashes@.len() as usize,
                downloaded_bytes: 0,
                total_bytes: total,
            }) && final(self).status@ == "Starting download..."@ && log_view(final(self).logs@) == logged(
                log_view(old(self).logs@),
                "Downloading to "@ + old(self).output_dir@ + "..."@,
            ) && *final(self) == (TorrentApp {
                busy: true,
                download_complete: false,
                progress: final(self).progress,
                status: final(self).status,
                logs: final(self).logs,
                ..*old(self)
            }),
    {
        let count = match &self.metadata {
            Some(m) => m.piece_hashes.len(),
            None => {
                return None;
            },
        };
        if self.peers.len() == 0 {
            self.status = string_of("Find peers before downloading.");
            return None;
        }
        self.download_complete = false;
        self.progress = DownloadProgress {
            current_piece: 0,
            total_pieces: count,
            downloaded_bytes: 0,
            total_bytes: total,
        };
        self.status = string_of("Starting download...");
        let mut line = string_of("Downloading to ");
        push_str(&mut line, self.output_dir.as_str());
        push_str(&mut line, "...");
        self.push_log(line);
        self.busy = true;
        Some((self.peers.clone(), self.output_dir.clone()))
    }

    /// Whether the progress bar shows: there is something to download, and a
    /// download runs, ran, or has begun.
    pub fn shows_progress(&self) -> (b: bool)
        ensures
            b == (self.progress.total_bytes > 0 && (self.busy || self.download_complete
                || self.progress.downloaded_bytes > 0)),
    {
        self.progress.total_bytes > 0 && (self.busy || self.download_complete || self.progress.downloaded_bytes
            > 0)
    }

    /// The text on the progress bar.
    pub fn progress_text(&self) -> (s: String)
        ensures
            s@ == spec_format_bytes(self.progress.downloaded_bytes) + " / "@ + spec_format_bytes(
                self.progress.total_bytes,
            ) + " (piece "@ + decimal(self.progress.current_piece as nat) + "/"@ + decimal(
                self.progress.total_pieces as nat,
            ) + ")"@,
    {
        let mut s = format_bytes(self.progress.downloaded_bytes);
        push_str(&mut s, " / ");
        let total = format_bytes(self.progress.total_bytes);
        push_str(&mut s, total.as_str());
        push_str(&mut s, " (piece ");
        push_decimal(&mut s, self.progress.current_piece as u64);
        push_str(&mut s, "/");
        push_decimal(&mut s, self.progress.total_pieces as u64);
        push_str(&mut s, ")");
        s
    }
}

/// `Size: ... (n pieces)` for a torrent of `total` bytes in `count` pieces.
pub fn size_line(total: u64, count: usize) -> (s: String)
    ensures
        s@ == "Size: "@ + spec_format_bytes(total) + " ("@ + decimal(count as nat) + " pieces)"@,
{
    let mut s = string_of("Size: ");
    let size = format_bytes(total);
    push_str(&mut s, size.as_str());
    push_str(&mut s, " (");
    push_decimal(&mut s, count as u64);
    push_str(&mut s, " pieces)");
    s
}

/// `Info hash: ...` in hexadecimal.
pub fn info_hash_line(info_hash: &[u8; 20]) -> (s: String)
    ensures
        s@ == "Info hash: "@ + spec_hex_encode(info_hash@),
{
    let mut s = string_of("Info hash: ");
    let hex = hex_encode(info_hash);
    push_str(&mut s, hex.as_str());
    s
}

/// `path (size)` for a file of the torrent.
pub fn file_label(path: &Vec<String>, length: u64) -> (s: String)
    ensures
        s@ == crate::storage::joined(crate::torrent::strings_view(path@)) + " ("@ + spec_format_bytes(length) + ")"@,
{
    let mut s = crate::storage::join_path(path);
    push_str(&mut s, " (");
    let size = format_bytes(length);
    push_str(&mut s, size.as_str());
    push_str(&mut s, ")");
    s
}

/// The log never grows past `MAX_LOG_LINES` lines; a new line always ends it, and
/// while there is room nothing is dropped.
pub proof fn lemma_log_bounded(logs: Seq<Seq<char>>, line: Seq<char>)
    requires
        logs.len() <= MAX_LOG_LINES,
    ensures
        logged(logs, line).len() <= MAX_LOG_LINES,
        logged(logs, line).last() == line,
        logs.len() < MAX_LOG_LINES ==> logged(logs, line) == logs.push(line),
        logs.len() == MAX_LOG_LINES ==> logged(logs, line) == logs.drop_first().push(line),
{
    if logs.len() == MAX_LOG_LINES {
        assert(logs.push(line).drop_first() =~= logs.drop_first().push(line));
    }
}

} // verus!
