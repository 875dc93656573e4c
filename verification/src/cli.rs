//! The decisions and the text of the command-line client: what it prints about a
//! torrent, whether it asks the tracker and the DHT, and what it downloads.
use vstd::prelude::*;
use crate::addr::PeerAddr;
use crate::peer::{block_length_for_piece, piece_size, spec_block_length, spec_piece_size};
use crate::storage::joined;
use crate::text::{decimal, push_char, push_decimal, push_str, string_of};
use crate::torrent::{meta_view, strings_view, FileView, TorrentMetadata};
use crate::utf8::{all_ascii, lemma_ascii_is_utf8, string_from_utf8_lossy};
use crate::{hex_encode, spec_hex_encode, DiscoverConfig};
use vstd::utf8::decode_utf8;

verus! {

/// The command line: the torrent file and the options.
#[derive(Debug, Clone)]
pub struct Cli {
    pub torrent: String,
    pub port: u16,
    pub no_announce: bool,
    pub no_dht: bool,
    pub download: bool,
    pub output: Option<String>,
    pub connect: bool,
    pub peer: Option<PeerAddr>,
}

/// What the client does after showing the torrent.
#[derive(Debug, Clone, Copy, PartialEq, Eq)]
pub enum Mode {
    /// Only show the torrent and its peers.
    Info,
    /// Download the whole torrent.
    Download,
    /// Download the first block of the first piece from one peer.
    Connect,
}

/// Why the client stops.
#[derive(Debug, Clone, Copy, PartialEq, Eq)]
pub enum CliError {
    BothModes,
    NoPeers,
    NoData,
}

impl CliError {
    pub open spec fn spec_message(self) -> Seq<char> {
        match self {
            CliError::BothModes => "use either --download or --connect, not both"@,
            CliError::NoPeers => "no peers found via tracker or DHT; try again or pass --peer"@,
            CliError::NoData => "torrent has no data to download"@,
        }
    }

    /// The error's message.
    pub fn to_string(&self) -> (s: String)
        ensures
            s@ == self.spec_message(),
    {
        match self {
            CliError::BothModes => string_of("use either --download or --connect, not both"),
            CliError::NoPeers => string_of("no peers found via tracker or DHT; try again or pass --peer"),
            CliError::NoData => string_of("torrent has no data to download"),
        }
    }
}

/// `--download` downloads, `--connect` or `--peer` connects; not both.
pub open spec fn spec_mode(cli: Cli) -> Result<Mode, CliError> {
    let wants_download = cli.download;
    let wants_connect = cli.connect || cli.peer is Some;
    if wants_download && wants_connect {
        Err(CliError::BothModes)
    } else if wants_download {
        Ok(Mode::Download)
    } else if wants_connect {
        Ok(Mode::Connect)
    } else {
        Ok(Mode::Info)
    }
}

pub fn mode(cli: &Cli) -> (r: Result<Mode, CliError>)
    ensures
        r == spec_mode(*cli),
{
    let wants_download = cli.download;
    let wants_connect = cli.connect || cli.peer.is_some();
    if wants_download && wants_connect {
        Err(CliError::BothModes)
    } else if wants_download {
        Ok(Mode::Download)
    } else if wants_connect {
        Ok(Mode::Connect)
    } else {
        Ok(Mode::Info)
    }
}

/// What the client does about the tracker.
#[derive(Debug, Clone, Copy, PartialEq, Eq)]
pub enum TrackerStep {
    /// `--no-announce`: nothing.
    Skip,
    /// The torrent names no tracker: say so.
    NoTracker,
    /// Announce to the tracker only.
    Announce(DiscoverConfig),
}

pub fn tracker_step(cli: &Cli, has_announce: bool) -> (s: TrackerStep)
    ensures
        cli.no_announce ==> s == TrackerStep::Skip,
        !cli.no_announce && !has_announce ==> s == TrackerStep::NoTracker,
        !cli.no_announce && has_announce ==> s == TrackerStep::Announce(
            DiscoverConfig { use_tracker: true, use_dht: false, port: cli.port },
        ),
{
    if cli.no_announce {
        TrackerStep::Skip
    } else if has_announce {
        TrackerStep::Announce(DiscoverConfig { use_tracker: true, use_dht: false, port: cli.port })
    } else {
        TrackerStep::NoTracker
    }
}

/// Whether the client asks the DHT, after the tracker gave `peers_found` peers:
/// when none came, the DHT is not switched off, and either the tracker step ran or
/// peers are needed.
pub fn dht_step(cli: &Cli, mode: Mode, peers_found: usize) -> (r: Option<DiscoverConfig>)
    ensures
        (peers_found == 0 && !cli.no_dht && (!cli.no_announce || mode != Mode::Info)) ==> r == Some(
            DiscoverConfig { use_tracker: false, use_dht: true, port: cli.port },
        ),
        !(peers_found == 0 && !cli.no_dht && (!cli.no_announce || mode != Mode::Info)) ==> r is None,
{
    let needs_peers = match mode {
        Mode::Info => false,
        _ => true,
    };
    if peers_found == 0 && !cli.no_dht && (!cli.no_announce || needs_peers) {
        Some(DiscoverConfig { use_tracker: false, use_dht: true, port: cli.port })
    } else {
        None
    }
}

/// The peers to use: the one given with `--peer`, else those found.
pub open spec fn chosen_peers(cli: Cli, peers: Seq<PeerAddr>) -> Seq<PeerAddr> {
    match cli.peer {
        Some(p) => seq![p],
        None => peers,
    }
}

fn choose_peers(cli: &Cli, peers: Vec<PeerAddr>) -> (r: Result<Vec<PeerAddr>, CliError>)
    ensures
        cli.peer is None && peers@.len() == 0 ==> r == Err::<Vec<PeerAddr>, CliError>(CliError::NoPeers),
        !(cli.peer is None && peers@.len() == 0) ==> (r matches Ok(v) && v@ == chosen_peers(*cli, peers@)),
{
    match cli.peer {
        Some(p) => {
            let v = vec![p];
            assert(v@ =~= seq![p]);
            Ok(v)
        },
        None => if peers.len() == 0 {
            Err(CliError::NoPeers)
        } else {
            Ok(peers)
        },
    }
}

/// Where `--download` writes and from which peers: the `--output` directory, else
/// one named after the torrent.
pub fn download_plan(cli: &Cli, name: &str, peers: Vec<PeerAddr>) -> (r: Result<(String, Vec<PeerAddr>), CliError>)
    ensures
        cli.peer is None && peers@.len() == 0 ==> r == Err::<(String, Vec<PeerAddr>), CliError>(CliError::NoPeers),
        !(cli.peer is None && peers@.len() == 0) ==> (r matches Ok((dir, list)) && list@ == chosen_peers(*cli, peers@)
            && dir@ == match cli.output {
            Some(o) => o@,
            None => name@,
        }),
{
    let list = choose_peers(cli, peers)?;
    let dir = match &cli.output {
        Some(o) => o.clone(),
        None => string_of(name),
    };
    Ok((dir, list))
}

/// The block that `--connect` asks for: the first of the first piece.
#[derive(Debug, Clone)]
pub struct ConnectPlan {
    pub peers: Vec<PeerAddr>,
    pub piece_index: u32,
    pub begin: u32,
    pub length: u32,
}

/// The peers to try in turn for the first block, and its length; there must be a
/// peer and the torrent must hold data.
pub fn connect_plan(cli: &Cli, peers: Vec<PeerAddr>, total: u64, piece_length: u64) -> (r: Result<ConnectPlan, CliError>)
    ensures
        cli.peer is None && peers@.len() == 0 ==> r == Err::<ConnectPlan, CliError>(CliError::NoPeers),
        !(cli.peer is None && peers@.len() == 0) && spec_piece_size(total, piece_length, 0) == 0 ==> r
            == Err::<ConnectPlan, CliError>(CliError::NoData),
        !(cli.peer is None && peers@.len() == 0) && spec_piece_size(total, piece_length, 0) != 0 ==> (r matches Ok(
            p,
        ) && p.peers@ == chosen_peers(*cli, peers@) && p.piece_index == 0 && p.begin == 0 && p.length
            == spec_block_length(spec_piece_size(total, piece_length, 0), 0)),
{
    let list = choose_peers(cli, peers)?;
    let piece_len = piece_size(total, piece_length, 0);
    if piece_len == 0 {
        return Err(CliError::NoData);
    }
    let length = block_length_for_piece(piece_len, 0);
    Ok(ConnectPlan { peers: list, piece_index: 0, begin: 0, length })
}

/// `Requesting piece ..., offset ..., length ... bytes`.
pub fn request_line(plan: &ConnectPlan) -> (s: String)
    ensures
        s@ == "Requesting piece "@ + decimal(plan.piece_index as nat) + ", offset "@ + decimal(plan.begin as nat)
            + ", length "@ + decimal(plan.length as nat) + " bytes"@,
{
    let mut s = string_of("Requesting piece ");
    push_decimal(&mut s, plan.piece_index as u64);
    push_str(&mut s, ", offset ");
    push_decimal(&mut s, plan.begin as u64);
    push_str(&mut s, ", length ");
    push_decimal(&mut s, plan.length as u64);
    push_str(&mut s, " bytes");
    s
}

/// How a downloaded block is shown: as text when it is ASCII, else in hexadecimal.
pub open spec fn spec_block_report(data: Seq<u8>) -> Seq<char> {
    if all_ascii(data) {
        "Data (ascii): "@ + decode_utf8(data)
    } else {
        "Data (hex):   "@ + spec_hex_encode(data)
    }
}

/// The line that shows a downloaded block.
pub fn block_report(data: &[u8]) -> (s: String)
    ensures
        s@ == spec_block_report(data@),
{
    let mut ascii = true;
    let mut i: usize = 0;
    while i < data.len()
        invariant
            i <= data@.len(),
            ascii == (forall|j: int| 0 <= j < i ==> #[trigger] data@[j] < 128),
        decreases data.len() - i,
    {
        if data[i] >= 128 {
            ascii = false;
        }
        i += 1;
    }
    if ascii {
        proof {
            lemma_ascii_is_utf8(data@);
        }
        let mut s = string_of("Data (ascii): ");
        let text = string_from_utf8_lossy(data);
        push_str(&mut s, text.as_str());
        s
    } else {
        let mut s = string_of("Data (hex):   ");
        let hex = hex_encode(data);
        push_str(&mut s, hex.as_str());
        s
    }
}

/// `  - path (length bytes)` for a file.
pub open spec fn file_line(f: FileView) -> Seq<char> {
    "  - "@ + joined(f.path) + " ("@ + decimal(f.length as nat) + " bytes)"@
}

/// The lines that describe a torrent of `total` bytes.
pub open spec fn summary(m: crate::torrent::MetaView, total: u64) -> Seq<Seq<char>> {
    seq![
        "Name:         "@ + m.name,
        match m.announce {
            Some(url) => "Announce:     "@ + url,
            None => "Announce:     (none — DHT/magnet only)"@,
        },
        "Info hash:    "@ + spec_hex_encode(m.info_hash),
        "Total size:   "@ + decimal(total as nat) + " bytes"@,
        "Piece length: "@ + decimal(m.piece_length as nat) + " bytes"@,
        "Piece count:  "@ + decimal(m.piece_hashes.len()),
        "Files:"@,
    ] + Seq::new(m.files.len(), |i: int| file_line(m.files[i]))
}

pub open spec fn lines_view(lines: Seq<String>) -> Seq<Seq<char>> {
    Seq::new(lines.len(), |i: int| lines[i]@)
}

fn labelled(label: &str, value: &str) -> (s: String)
    ensures
        s@ == label@ + value@,
{
    let mut s = string_of(label);
    push_str(&mut s, value);
    s
}

fn labelled_number(label: &str, n: u64, unit: &str) -> (s: String)
    ensures
        s@ == label@ + decimal(n as nat) + unit@,
{
    let mut s = string_of(label);
    push_decimal(&mut s, n);
    push_str(&mut s, unit);
    s
}

/// The lines that describe `metadata`, whose files hold `total` bytes.
pub fn summary_lines(metadata: &TorrentMetadata, total: u64) -> (lines: Vec<String>)
    ensures
        lines_view(lines@) == summary(meta_view(*metadata), total),
{
    let ghost m = meta_view(*metadata);
    let mut lines: Vec<String> = Vec::new();
    lines.push(labelled("Name:         ", metadata.name.as_str()));
    match &metadata.announce {
        Some(url) => lines.push(labelled("Announce:     ", url.as_str())),
        None => lines.push(string_of("Announce:     (none — DHT/magnet only)")),
    }
    let hex = hex_encode(&metadata.info_hash);
    lines.push(labelled("Info hash:    ", hex.as_str()));
    lines.push(labelled_number("Total size:   ", total, " bytes"));
    lines.push(labelled_number("Piece length: ", metadata.piece_length, " bytes"));
    let mut count = string_of("Piece count:  ");
    push_decimal(&mut count, metadata.piece_hashes.len() as u64);
    lines.push(count);
    lines.push(string_of("Files:"));
    assert(lines_view(lines@) =~= summary(m, total).take(7));
    let mut i: usize = 0;
    while i < metadata.files.len()
        invariant
            i <= metadata.files@.len(),
            m == meta_view(*metadata),
            lines@.len() == 7 + i,
            lines_view(lines@) == summary(m, total).take(7 + i),
        decreases metadata.files.len() - i,
    {
        let file = &metadata.files[i];
        let mut line = string_of("  - ");
        let path = crate::storage::join_path(&file.path);
        push_str(&mut line, path.as_str());
        push_str(&mut line, " (");
        push_decimal(&mut line, file.length);
        push_str(&mut line, " bytes)");
        proof {
            assert(m.files[i as int] == crate::torrent::file_view(*file));
        }
        lines.push(line);
        assert(lines_view(lines@) =~= summary(m, total).take(7 + i + 1));
        i += 1;
    }
    assert(summary(m, total).take(7 + metadata.files@.len() as int) =~= summary(m, total));
    lines
}

} // verus!
