//! A BitTorrent client library: torrent files, trackers, the DHT, the peer wire
//! protocol, downloads and storage, and a Stratego game with its computer player.
pub mod addr;
pub mod ai;
pub mod bencode;
pub mod bytes;
pub mod cli;
pub mod decoding;
pub mod dht;
pub mod download;
pub mod game;
pub mod gui;
pub mod hashing;
pub mod lookup;
pub mod peer;
pub mod random;
pub mod sizes;
pub mod storage;
pub mod stratego;
pub mod text;
pub mod torrent;
pub mod tracker;
pub mod utf8;

use vstd::prelude::*;
use crate::sizes::{f64_value, push_two_decimals, two_decimals, value_as_f64};
use crate::text::{decimal, push_char, push_decimal, push_str, string_of};
use crate::torrent::{files_total, meta_view, TorrentMetadata};
use crate::tracker::{AnnounceEvent, AnnounceRequest};

verus! {

/// The lower-case hexadecimal digit of `n` (below 16).
pub open spec fn hex_lower(n: int) -> char {
    if n < 10 {
        (48 + n) as char
    } else {
        (87 + n) as char
    }
}

/// Two lower-case hexadecimal digits for each byte of `bytes`.
pub open spec fn spec_hex_encode(bytes: Seq<u8>) -> Seq<char>
    decreases bytes.len(),
{
    if bytes.len() == 0 {
        seq![]
    } else {
        spec_hex_encode(bytes.drop_last()) + seq![hex_lower(bytes.last() as int / 16), hex_lower(bytes.last() as int % 16)]
    }
}

fn hex_lower_char(n: u8) -> (c: char)
    requires
        n < 16,
    ensures
        c == hex_lower(n as int),
{
    if n < 10 {
        (48u8 + n) as char
    } else {
        (87u8 + n) as char
    }
}

/// The lower-case hexadecimal digit of each `n` below 16 is the `n`-th character of
/// `0123456789abcdef`.
pub proof fn lemma_hex_lower_digit(n: int)
    requires
        0 <= n < 16,
    ensures
        hex_lower(n) == "0123456789abcdef"@[n],
{
    reveal_strlit("0123456789abcdef");
}

/// The hexadecimal text of a byte string is two characters per byte, in order: the
/// byte's high and low digits in lower case.
pub proof fn lemma_hex_encode_layout(bytes: Seq<u8>)
    ensures
        spec_hex_encode(bytes).len() == 2 * bytes.len(),
        forall|i: int|
            0 <= i < bytes.len() ==> spec_hex_encode(bytes).subrange(2 * i, 2 * i + 2) == seq![
                "0123456789abcdef"@[#[trigger] bytes[i] as int / 16],
                "0123456789abcdef"@[bytes[i] as int % 16],
            ],
    decreases bytes.len(),
{
    reveal_strlit("0123456789abcdef");
    if bytes.len() > 0 {
        let front = bytes.drop_last();
        lemma_hex_encode_layout(front);
        let b = bytes.last();
        lemma_hex_lower_digit(b as int / 16);
        lemma_hex_lower_digit(b as int % 16);
        let whole = spec_hex_encode(bytes);
        let head = spec_hex_encode(front);
        assert forall|i: int| 0 <= i < bytes.len() implies whole.subrange(2 * i, 2 * i + 2) == seq![
            "0123456789abcdef"@[#[trigger] bytes[i] as int / 16],
            "0123456789abcdef"@[bytes[i] as int % 16],
        ] by {
            if i < bytes.len() - 1 {
                assert(front[i] == bytes[i]);
                assert(whole.subrange(2 * i, 2 * i + 2) =~= head.subrange(2 * i, 2 * i + 2));
            } else {
                assert(bytes[i] == b);
                assert(whole.subrange(2 * i, 2 * i + 2) =~= seq![
                    "0123456789abcdef"@[bytes[i] as int / 16],
                    "0123456789abcdef"@[bytes[i] as int % 16],
                ]);
            }
        }
    }
}

/// The bytes in lower-case hexadecimal, two digits each.
pub fn hex_encode(bytes: &[u8]) -> (s: String)
    ensures
        s@ == spec_hex_encode(bytes@),
{
    let mut s = String::new();
    let mut i: usize = 0;
    while i < bytes.len()
        invariant
            i <= bytes.len(),
            s@ == spec_hex_encode(bytes@.take(i as int)),
        decreases bytes.len() - i,
    {
        let b = bytes[i];
        push_char(&mut s, hex_lower_char(b / 16));
        push_char(&mut s, hex_lower_char(b % 16));
        assert(bytes@.take(i + 1).drop_last() =~= bytes@.take(i as int));
        assert(s@ =~= spec_hex_encode(bytes@.take(i + 1)));
        i += 1;
    }
    assert(bytes@.take(bytes.len() as int) =~= bytes@);
    s
}

pub const KIB: u64 = 1024;

pub const MIB: u64 = 1048576;

pub const GIB: u64 = 1073741824;

/// A byte count for people: below a KiB in bytes, else in the largest binary unit
/// it reaches with two decimals, as the `f64` quotient prints with `{:.2}`.
pub open spec fn spec_format_bytes(bytes: u64) -> Seq<char> {
    if bytes >= GIB {
        two_decimals(f64_value(bytes as nat), 30) + " GiB"@
    } else if bytes >= MIB {
        two_decimals(f64_value(bytes as nat), 20) + " MiB"@
    } else if bytes >= KIB {
        two_decimals(f64_value(bytes as nat), 10) + " KiB"@
    } else {
        decimal(bytes as nat) + " B"@
    }
}

/// Writes a byte count in the largest binary unit it reaches.
pub fn format_bytes(bytes: u64) -> (s: String)
    ensures
        s@ == spec_format_bytes(bytes),
{
    let mut s = String::new();
    if bytes >= GIB {
        push_two_decimals(&mut s, value_as_f64(bytes), 30);
        push_str(&mut s, " GiB");
    } else if bytes >= MIB {
        push_two_decimals(&mut s, value_as_f64(bytes), 20);
        push_str(&mut s, " MiB");
    } else if bytes >= KIB {
        push_two_decimals(&mut s, value_as_f64(bytes), 10);
        push_str(&mut s, " KiB");
    } else {
        push_decimal(&mut s, bytes);
        push_str(&mut s, " B");
    }
    assert(s@ =~= spec_format_bytes(bytes));
    s
}

/// Where `discover_peers` looks for peers, and the port it announces.
#[derive(Debug, Clone, Copy, PartialEq, Eq)]
pub struct DiscoverConfig {
    pub use_tracker: bool,
    pub use_dht: bool,
    pub port: u16,
}

impl Default for DiscoverConfig {
    fn default() -> (c: Self)
        ensures
            c == (DiscoverConfig { use_tracker: true, use_dht: true, port: 6881 }),
    {
        DiscoverConfig { use_tracker: true, use_dht: true, port: 6881 }
    }
}

/// Whether discovery asks the tracker: when that is enabled and the torrent names one.
pub fn asks_tracker(config: &DiscoverConfig, metadata: &TorrentMetadata) -> (b: bool)
    ensures
        b == (config.use_tracker && metadata.announce is Some),
{
    config.use_tracker && metadata.announce.is_some()
}

/// Whether discovery asks the DHT: when that is enabled and no peer came before.
pub fn asks_dht(config: &DiscoverConfig, peers_found: usize) -> (b: bool)
    ensures
        b == (config.use_dht && peers_found == 0),
{
    peers_found == 0 && config.use_dht
}

/// The announce that discovery sends: nothing up or down yet, all `total` bytes
/// left, the download just started.
pub fn discovery_announce(metadata: &TorrentMetadata, peer_id: [u8; 20], config: &DiscoverConfig, total: u64) -> (r: AnnounceRequest)
    ensures
        r.info_hash == metadata.info_hash,
        r.peer_id == peer_id,
        r.port == config.port,
        r.uploaded == 0,
        r.downloaded == 0,
        r.left == total,
        r.event == Some(AnnounceEvent::Started),
{
    AnnounceRequest {
        info_hash: metadata.info_hash,
        peer_id,
        port: config.port,
        uploaded: 0,
        downloaded: 0,
        left: total,
        event: Some(AnnounceEvent::Started),
    }
}

} // verus!
