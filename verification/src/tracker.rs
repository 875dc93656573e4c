//! Talking to HTTP trackers: announce URLs and announce responses.
use vstd::prelude::*;
use crate::bytes::bytes_equal;
use crate::addr::{addr_view, compact_peers, read_compact_peer, AddrView, PeerAddr};
use crate::decoding::{
    bendy_tokens, check_value_start, decode_tokens, kind_name, lemma_skip_from_advances,
    parse_u64, parse_u64_text, skip, skip_value, token_views, unexpected, unexpected_token_text,
    value_start, Token, TokenView,
};
use vstd::utf8::{decode_utf8, valid_utf8};
use crate::random::{client_tag, tagged_random_id};
use crate::text::{decimal, is_prefix, push_char, push_decimal, push_str, starts_with, string_of};
use crate::utf8::{lossy_utf8, string_from_utf8, string_from_utf8_lossy};
use vstd::string::StrSliceExecFns;

verus! {

#[derive(Debug, Clone, Copy, PartialEq, Eq, Structural)]
pub enum AnnounceEvent {
    Started,
    Completed,
    Stopped,
}

impl AnnounceEvent {
    pub open spec fn spec_as_str(self) -> Seq<char> {
        match self {
            AnnounceEvent::Started => "started"@,
            AnnounceEvent::Completed => "completed"@,
            AnnounceEvent::Stopped => "stopped"@,
        }
    }

    pub fn as_str(self) -> (s: &'static str)
        ensures
            s@ == self.spec_as_str(),
    {
        match self {
            AnnounceEvent::Started => "started",
            AnnounceEvent::Completed => "completed",
            AnnounceEvent::Stopped => "stopped",
        }
    }
}

#[derive(Debug, Clone)]
pub struct AnnounceRequest {
    pub info_hash: [u8; 20],
    pub peer_id: [u8; 20],
    pub port: u16,
    pub uploaded: u64,
    pub downloaded: u64,
    pub left: u64,
    pub event: Option<AnnounceEvent>,
}

#[derive(Debug, Clone)]
pub struct AnnounceResponse {
    pub interval: u32,
    pub peers: Vec<PeerAddr>,
    pub complete: Option<u32>,
    pub incomplete: Option<u32>,
}

/// A fresh peer id: `-BT0001-` followed by twelve random bytes.
pub fn generate_peer_id() -> (id: [u8; 20])
    ensures
        id@.take(8) == client_tag(),
{
    tagged_random_id()
}

/// The upper-case hexadecimal digit of `n` (below 16).
pub open spec fn hex_upper(n: int) -> char {
    if n < 10 {
        (48 + n) as char
    } else {
        (55 + n) as char
    }
}

/// `%XX` for each byte, in upper-case hexadecimal.
pub open spec fn spec_percent_encode(bytes: Seq<u8>) -> Seq<char>
    decreases bytes.len(),
{
    if bytes.len() == 0 {
        seq![]
    } else {
        spec_percent_encode(bytes.drop_last()) + seq!['%', hex_upper(bytes.last() as int / 16), hex_upper(bytes.last() as int % 16)]
    }
}

fn hex_upper_char(n: u8) -> (c: char)
    requires
        n < 16,
    ensures
        c == hex_upper(n as int),
{
    if n < 10 {
        (48u8 + n) as char
    } else {
        (55u8 + n) as char
    }
}

fn percent_encode(bytes: &[u8]) -> (s: String)
    ensures
        s@ == spec_percent_encode(bytes@),
{
    let mut s = String::new();
    let mut i: usize = 0;
    while i < bytes.len()
        invariant
            i <= bytes.len(),
            s@ == spec_percent_encode(bytes@.take(i as int)),
        decreases bytes.len() - i,
    {
        let b = bytes[i];
        push_char(&mut s, '%');
        push_char(&mut s, hex_upper_char(b / 16));
        push_char(&mut s, hex_upper_char(b % 16));
        assert(bytes@.take(i + 1).drop_last() =~= bytes@.take(i as int));
        assert(s@ =~= spec_percent_encode(bytes@.take(i + 1)));
        i += 1;
    }
    assert(bytes@.take(bytes.len() as int) =~= bytes@);
    s
}

/// The upper-case hexadecimal digit of each `n` below 16 is the `n`-th character of
/// `0123456789ABCDEF`.
pub proof fn lemma_hex_upper_digit(n: int)
    requires
        0 <= n < 16,
    ensures
        hex_upper(n) == "0123456789ABCDEF"@[n],
{
    reveal_strlit("0123456789ABCDEF");
}

/// The percent-encoding of a byte string is three characters per byte, in order: `%`,
/// then the byte's high and low hexadecimal digits in upper case.
pub proof fn lemma_percent_encode_layout(bytes: Seq<u8>)
    ensures
        spec_percent_encode(bytes).len() == 3 * bytes.len(),
        forall|i: int|
            0 <= i < bytes.len() ==> spec_percent_encode(bytes).subrange(3 * i, 3 * i + 3) == seq![
                '%',
                "0123456789ABCDEF"@[#[trigger] bytes[i] as int / 16],
                "0123456789ABCDEF"@[bytes[i] as int % 16],
            ],
    decreases bytes.len(),
{
    reveal_strlit("0123456789ABCDEF");
    if bytes.len() > 0 {
        let front = bytes.drop_last();
        lemma_percent_encode_layout(front);
        let b = bytes.last();
        lemma_hex_upper_digit(b as int / 16);
        lemma_hex_upper_digit(b as int % 16);
        let whole = spec_percent_encode(bytes);
        let head = spec_percent_encode(front);
        assert forall|i: int| 0 <= i < bytes.len() implies whole.subrange(3 * i, 3 * i + 3) == seq![
            '%',
            "0123456789ABCDEF"@[#[trigger] bytes[i] as int / 16],
            "0123456789ABCDEF"@[bytes[i] as int % 16],
        ] by {
            if i < bytes.len() - 1 {
                assert(front[i] == bytes[i]);
                assert(whole.subrange(3 * i, 3 * i + 3) =~= head.subrange(3 * i, 3 * i + 3));
            } else {
                assert(bytes[i] == b);
                assert(whole.subrange(3 * i, 3 * i + 3) =~= seq![
                    '%',
                    "0123456789ABCDEF"@[bytes[i] as int / 16],
                    "0123456789ABCDEF"@[bytes[i] as int % 16],
                ]);
            }
        }
    }
}

/// The announce URL for `request` on the tracker at `base`.
pub open spec fn spec_announce_url(base: Seq<char>, request: AnnounceRequest) -> Seq<char> {
    base + seq![if base.contains('?') { '&' } else { '?' }] + "info_hash="@ + spec_percent_encode(request.info_hash@)
        + "&peer_id="@ + spec_percent_encode(request.peer_id@) + "&port="@ + decimal(request.port as nat)
        + "&uploaded="@ + decimal(request.uploaded as nat) + "&downloaded="@ + decimal(request.downloaded as nat)
        + "&left="@ + decimal(request.left as nat) + "&compact=1&numwant=50"@ + match request.event {
        Some(e) => "&event="@ + e.spec_as_str(),
        None => ""@,
    }
}

fn str_contains_char(s: &str, c: char) -> (b: bool)
    ensures
        b == s@.contains(c),
{
    let n = s.unicode_len();
    let mut i: usize = 0;
    while i < n
        invariant
            n == s@.len(),
            i <= n,
            forall|j: int| 0 <= j < i ==> s@[j] != c,
        decreases n - i,
    {
        if s.get_char(i) == c {
            return true;
        }
        i += 1;
    }
    false
}

/// Builds the announce URL for `request` on the tracker at `announce_url`.
pub fn build_announce_url(announce_url: &str, request: &AnnounceRequest) -> (r: Result<String, TrackerError>)
    ensures
        r matches Ok(url) && url@ == spec_announce_url(announce_url@, *request),
{
    let separator = if str_contains_char(announce_url, '?') {
        '&'
    } else {
        '?'
    };
    let mut url = string_of(announce_url);
    push_char(&mut url, separator);
    push_str(&mut url, "info_hash=");
    let ih = percent_encode(&request.info_hash);
    push_str(&mut url, ih.as_str());
    push_str(&mut url, "&peer_id=");
    let pid = percent_encode(&request.peer_id);
    push_str(&mut url, pid.as_str());
    push_str(&mut url, "&port=");
    push_decimal(&mut url, request.port as u64);
    push_str(&mut url, "&uploaded=");
    push_decimal(&mut url, request.uploaded);
    push_str(&mut url, "&downloaded=");
    push_decimal(&mut url, request.downloaded);
    push_str(&mut url, "&left=");
    push_decimal(&mut url, request.left);
    push_str(&mut url, "&compact=1&numwant=50");
    if let Some(event) = request.event {
        push_str(&mut url, "&event=");
        push_str(&mut url, event.as_str());
    }
    proof {
        reveal_strlit("");
    }
    assert(url@ =~= spec_announce_url(announce_url@, *request));
    Ok(url)
}

/// Why a tracker announce failed or its response was refused.
#[derive(Debug, Clone, PartialEq, Eq)]
pub enum TrackerError {
    /// The compact peer list is not a whole number of six-byte entries.
    BadCompactLength(usize),
    /// The URL is a UDP tracker's.
    UdpUnsupported(String),
    /// The URL is neither `http://` nor `https://`.
    UnsupportedScheme(String),
    /// The bencode decoder's error, or a value of the wrong kind, with its message.
    Decode(String),
    /// The token stream ends, or holds a token, where no decoded stream can.
    Malformed,
    Empty,
    InvalidUtf8,
    /// An integer that is not a `u64`, with its numeral.
    InvalidInteger(Vec<u8>),
    OutOfRangeU32,
    OutOfRangeU16,
    BadPeers,
    MissingIp,
    MissingPort,
    /// The text `ip:port` of a peer dictionary is not a socket address.
    InvalidAddress(String, u16),
    /// The tracker refused the announce, for this reason.
    Failure(String),
    MissingInterval,
    MissingPeers,
}

impl TrackerError {
    pub open spec fn spec_message(self) -> Seq<char> {
        match self {
            TrackerError::BadCompactLength(n) => "compact peer list length must be a multiple of 6, got "@
                + decimal(n as nat),
            TrackerError::UdpUnsupported(url) => "UDP trackers are not supported yet (got "@ + url@ + ")"@,
            TrackerError::UnsupportedScheme(url) => "unsupported tracker URL scheme: "@ + url@,
            TrackerError::Decode(m) => m@,
            TrackerError::InvalidInteger(d) => "invalid bencode integer: "@ + lossy_utf8(d@),
            TrackerError::InvalidAddress(ip, port) => "invalid peer address "@ + ip@ + ":"@ + decimal(port as nat),
            TrackerError::Failure(reason) => "tracker failure: "@ + reason@,
            TrackerError::Malformed => "malformed bencode token stream"@,
            TrackerError::Empty => "tracker response is empty"@,
            TrackerError::InvalidUtf8 => "tracker string is not valid UTF-8"@,
            TrackerError::OutOfRangeU32 => "integer out of range for u32"@,
            TrackerError::OutOfRangeU16 => "integer out of range for u16"@,
            TrackerError::BadPeers => "peers must be a byte string or list"@,
            TrackerError::MissingIp => "peer dictionary missing ip"@,
            TrackerError::MissingPort => "peer dictionary missing port"@,
            TrackerError::MissingInterval => "tracker response missing interval"@,
            TrackerError::MissingPeers => "tracker response missing peers"@,
        }
    }

    /// The error's message.
    pub fn to_string(&self) -> (s: String)
        ensures
            s@ == self.spec_message(),
    {
        match self {
            TrackerError::BadCompactLength(n) => {
                let mut s = string_of("compact peer list length must be a multiple of 6, got ");
                push_decimal(&mut s, *n as u64);
                s
            },
            TrackerError::UdpUnsupported(url) => {
                let mut s = string_of("UDP trackers are not supported yet (got ");
                push_str(&mut s, url.as_str());
                push_str(&mut s, ")");
                s
            },
            TrackerError::UnsupportedScheme(url) => {
                let mut s = string_of("unsupported tracker URL scheme: ");
                push_str(&mut s, url.as_str());
                s
            },
            TrackerError::Decode(m) => m.clone(),
            TrackerError::InvalidInteger(d) => {
                let mut s = string_of("invalid bencode integer: ");
                let digits = string_from_utf8_lossy(d.as_slice());
                push_str(&mut s, digits.as_str());
                s
            },
            TrackerError::InvalidAddress(ip, port) => {
                let mut s = string_of("invalid peer address ");
                push_str(&mut s, ip.as_str());
                push_str(&mut s, ":");
                push_decimal(&mut s, *port as u64);
                s
            },
            TrackerError::Failure(reason) => {
                let mut s = string_of("tracker failure: ");
                push_str(&mut s, reason.as_str());
                s
            },
            TrackerError::Malformed => string_of("malformed bencode token stream"),
            TrackerError::Empty => string_of("tracker response is empty"),
            TrackerError::InvalidUtf8 => string_of("tracker string is not valid UTF-8"),
            TrackerError::OutOfRangeU32 => string_of("integer out of range for u32"),
            TrackerError::OutOfRangeU16 => string_of("integer out of range for u16"),
            TrackerError::BadPeers => string_of("peers must be a byte string or list"),
            TrackerError::MissingIp => string_of("peer dictionary missing ip"),
            TrackerError::MissingPort => string_of("peer dictionary missing port"),
            TrackerError::MissingInterval => string_of("tracker response missing interval"),
            TrackerError::MissingPeers => string_of("tracker response missing peers"),
        }
    }
}

/// The URL to announce `request` to the tracker at `announce_url`: UDP trackers
/// and schemes other than `http` and `https` are refused.
pub fn prepare_announce(announce_url: &str, request: &AnnounceRequest) -> (r: Result<String, TrackerError>)
    ensures
        if is_prefix("udp://"@, announce_url@) {
            r matches Err(TrackerError::UdpUnsupported(u)) && u@ == announce_url@
        } else if !is_prefix("http://"@, announce_url@) && !is_prefix("https://"@, announce_url@) {
            r matches Err(TrackerError::UnsupportedScheme(u)) && u@ == announce_url@
        } else {
            r matches Ok(url) && url@ == spec_announce_url(announce_url@, *request)
        },
{
    if starts_with(announce_url, "udp://") {
        return Err(TrackerError::UdpUnsupported(string_of(announce_url)));
    }
    if !starts_with(announce_url, "http://") && !starts_with(announce_url, "https://") {
        return Err(TrackerError::UnsupportedScheme(string_of(announce_url)));
    }
    build_announce_url(announce_url, request)
}

/// Parses a compact peer list: six bytes per peer.
pub fn parse_compact_peers(bytes: &[u8]) -> (r: Result<Vec<PeerAddr>, TrackerError>)
    ensures
        bytes@.len() % 6 != 0 <==> r is Err,
        r matches Err(e) ==> e == TrackerError::BadCompactLength(bytes@.len() as usize),
        r matches Ok(peers) ==> peers@.map_values(|p: PeerAddr| addr_view(p)) == compact_peers(bytes@),
{
    if bytes.len() % 6 != 0 {
        return Err(TrackerError::BadCompactLength(bytes.len()));
    }
    let mut peers: Vec<PeerAddr> = Vec::new();
    let mut i: usize = 0;
    while i < bytes.len() / 6
        invariant
            bytes@.len() % 6 == 0,
            i <= bytes@.len() / 6,
            peers@.len() == i,
            forall|j: int| 0 <= j < i ==> addr_view(#[trigger] peers@[j]) == compact_peers(bytes@)[j],
        decreases bytes.len() / 6 - i,
    {
        let p = read_compact_peer(bytes, 6 * i);
        peers.push(p);
        i += 1;
    }
    assert(peers@.map_values(|p: PeerAddr| addr_view(p)) =~= compact_peers(bytes@));
    Ok(peers)
}

/// How reading a tracker response stops short of a response, as plain values.
/// `NeedsAddress` is no failure: the reader needs to know what the address text
/// of the next peer dictionary parses to.
pub enum TrackerFail {
    Decode(Seq<char>),
    InvalidInteger(Seq<u8>),
    InvalidAddress(Seq<char>, u16),
    Failure(Seq<char>),
    NeedsAddress(Seq<char>),
    Plain(TrackerError),
}

pub open spec fn read_fail(e: Option<Seq<char>>) -> TrackerFail {
    match e {
        Some(m) => TrackerFail::Decode(m),
        None => TrackerFail::Plain(TrackerError::Malformed),
    }
}

/// An announce response as plain values.
pub struct ResponseView {
    pub interval: u32,
    pub peers: Seq<AddrView>,
    pub complete: Option<u32>,
    pub incomplete: Option<u32>,
}

pub open spec fn peer_views(peers: Seq<PeerAddr>) -> Seq<AddrView> {
    peers.map_values(|p: PeerAddr| addr_view(p))
}

pub open spec fn response_view(r: AnnounceResponse) -> ResponseView {
    ResponseView { interval: r.interval, peers: peer_views(r.peers@), complete: r.complete, incomplete: r.incomplete }
}

pub open spec fn interval_key() -> Seq<u8> {
    seq![105u8, 110, 116, 101, 114, 118, 97, 108]
}

pub open spec fn peers_key() -> Seq<u8> {
    seq![112u8, 101, 101, 114, 115]
}

pub open spec fn complete_key() -> Seq<u8> {
    seq![99u8, 111, 109, 112, 108, 101, 116, 101]
}

pub open spec fn incomplete_key() -> Seq<u8> {
    seq![105u8, 110, 99, 111, 109, 112, 108, 101, 116, 101]
}

pub open spec fn failure_key() -> Seq<u8> {
    seq![102u8, 97, 105, 108, 117, 114, 101, 32, 114, 101, 97, 115, 111, 110]
}

pub open spec fn ip_key() -> Seq<u8> {
    seq![105u8, 112]
}

pub open spec fn port_key() -> Seq<u8> {
    seq![112u8, 111, 114, 116]
}

/// The byte string at `p` read as UTF-8 text.
pub open spec fn text_at(ts: Seq<TokenView>, p: int) -> Result<Seq<char>, TrackerFail> {
    match ts[p] {
        TokenView::Bytes(b) => if valid_utf8(b) {
            Ok(decode_utf8(b))
        } else {
            Err(TrackerFail::Plain(TrackerError::InvalidUtf8))
        },
        t => Err(TrackerFail::Decode(unexpected_token_text("String"@, kind_name(t)))),
    }
}

/// The integer at `p` read as a `u64`.
pub open spec fn u64_at(ts: Seq<TokenView>, p: int) -> Result<u64, TrackerFail> {
    match ts[p] {
        TokenView::Num(d) => match parse_u64_text(d) {
            Some(v) => Ok(v),
            None => Err(TrackerFail::InvalidInteger(d)),
        },
        t => Err(TrackerFail::Decode(unexpected_token_text("Num"@, kind_name(t)))),
    }
}

pub open spec fn u32_at(ts: Seq<TokenView>, p: int) -> Result<u32, TrackerFail> {
    match u64_at(ts, p) {
        Err(e) => Err(e),
        Ok(v) => if v > u32::MAX {
            Err(TrackerFail::Plain(TrackerError::OutOfRangeU32))
        } else {
            Ok(v as u32)
        },
    }
}

pub open spec fn u16_at(ts: Seq<TokenView>, p: int) -> Result<u16, TrackerFail> {
    match u64_at(ts, p) {
        Err(e) => Err(e),
        Ok(v) => if v > u16::MAX {
            Err(TrackerFail::Plain(TrackerError::OutOfRangeU16))
        } else {
            Ok(v as u16)
        },
    }
}

/// The text `ip:port` that a peer dictionary's address is parsed from.
pub open spec fn address_text(ip: Seq<char>, port: u16) -> Seq<char> {
    ip + ":"@ + decimal(port as nat)
}

/// The entries of the peer dictionary from `q` on; `k` dictionary peers came
/// before it, and `addresses[i]` is what the address text of the `i`th parses to.
pub open spec fn dict_peer_pairs(
    ts: Seq<TokenView>,
    q: int,
    ip: Option<Seq<char>>,
    port: Option<u16>,
    k: int,
    addresses: Seq<Option<AddrView>>,
) -> Result<(AddrView, int), TrackerFail>
    decreases ts.len() - q,
{
    if q < 0 || q >= ts.len() {
        Err(TrackerFail::Plain(TrackerError::Malformed))
    } else {
        match ts[q] {
            TokenView::Error(m) => Err(TrackerFail::Decode(m)),
            TokenView::End => match ip {
                None => Err(TrackerFail::Plain(TrackerError::MissingIp)),
                Some(i) => match port {
                    None => Err(TrackerFail::Plain(TrackerError::MissingPort)),
                    Some(p) => if k >= addresses.len() {
                        Err(TrackerFail::NeedsAddress(address_text(i, p)))
                    } else {
                        match addresses[k] {
                            Some(a) => Ok((a, q + 1)),
                            None => Err(TrackerFail::InvalidAddress(i, p)),
                        }
                    },
                },
            },
            TokenView::Bytes(key) => match value_start(ts, q + 1) {
                Err(e) => Err(read_fail(e)),
                Ok(()) => if key == ip_key() {
                    match text_at(ts, q + 1) {
                        Err(e) => Err(e),
                        Ok(v) => dict_peer_pairs(ts, q + 2, Some(v), port, k, addresses),
                    }
                } else if key == port_key() {
                    match u16_at(ts, q + 1) {
                        Err(e) => Err(e),
                        Ok(v) => dict_peer_pairs(ts, q + 2, ip, Some(v), k, addresses),
                    }
                } else {
                    match skip_value(ts, q + 1) {
                        Err(e) => Err(read_fail(e)),
                        Ok(e) => {
                            proof {
                                lemma_skip_from_advances(ts, q + 1, 0);
                            }
                            dict_peer_pairs(ts, e, ip, port, k, addresses)
                        },
                    }
                },
            },
            _ => Err(TrackerFail::Plain(TrackerError::Malformed)),
        }
    }
}

/// The peer dictionary at `p`.
pub open spec fn dict_peer_at(ts: Seq<TokenView>, p: int, k: int, addresses: Seq<Option<AddrView>>) -> Result<(AddrView, int), TrackerFail> {
    match ts[p] {
        TokenView::Dict => dict_peer_pairs(ts, p + 1, None, None, k, addresses),
        t => Err(TrackerFail::Decode(unexpected_token_text("Dict"@, kind_name(t)))),
    }
}

/// Reading a peer dictionary moves forward, stays within the tokens, and uses an
/// address that was handed in.
pub proof fn lemma_dict_peer_pairs_advances(
    ts: Seq<TokenView>,
    q: int,
    ip: Option<Seq<char>>,
    port: Option<u16>,
    k: int,
    addresses: Seq<Option<AddrView>>,
)
    ensures
        dict_peer_pairs(ts, q, ip, port, k, addresses) matches Ok((_, e)) ==> q < e <= ts.len() && k
            < addresses.len(),
    decreases ts.len() - q,
{
    if 0 <= q < ts.len() {
        if let TokenView::Bytes(key) = ts[q] {
            if value_start(ts, q + 1) is Ok {
                if key == ip_key() {
                    if let Ok(v) = text_at(ts, q + 1) {
                        lemma_dict_peer_pairs_advances(ts, q + 2, Some(v), port, k, addresses);
                    }
                } else if key == port_key() {
                    if let Ok(v) = u16_at(ts, q + 1) {
                        lemma_dict_peer_pairs_advances(ts, q + 2, ip, Some(v), k, addresses);
                    }
                } else {
                    lemma_skip_from_advances(ts, q + 1, 0);
                    if let Ok(e) = skip_value(ts, q + 1) {
                        lemma_dict_peer_pairs_advances(ts, e, ip, port, k, addresses);
                    }
                }
            }
        }
    }
}

/// The peer dictionaries from `q` to the end of the list, after `acc`; the peers
/// and the position after the list. The first of them is the `k`th dictionary peer.
pub open spec fn peer_items(
    ts: Seq<TokenView>,
    q: int,
    acc: Seq<AddrView>,
    k: int,
    addresses: Seq<Option<AddrView>>,
) -> Result<(Seq<AddrView>, int), TrackerFail>
    decreases ts.len() - q,
{
    if q < 0 || q >= ts.len() {
        Err(TrackerFail::Plain(TrackerError::Malformed))
    } else {
        match ts[q] {
            TokenView::Error(m) => Err(TrackerFail::Decode(m)),
            TokenView::End => Ok((acc, q + 1)),
            _ => match dict_peer_at(ts, q, k, addresses) {
                Err(e) => Err(e),
                Ok((a, e)) => {
                    proof {
                        lemma_dict_peer_pairs_advances(ts, q + 1, None, None, k, addresses);
                    }
                    peer_items(ts, e, acc.push(a), k + 1, addresses)
                },
            },
        }
    }
}

/// Reading the peer list moves forward and stays within the tokens.
pub proof fn lemma_peer_items_advances(
    ts: Seq<TokenView>,
    q: int,
    acc: Seq<AddrView>,
    k: int,
    addresses: Seq<Option<AddrView>>,
)
    ensures
        peer_items(ts, q, acc, k, addresses) matches Ok((_, e)) ==> q < e <= ts.len(),
    decreases ts.len() - q,
{
    if 0 <= q < ts.len() {
        match ts[q] {
            TokenView::Error(_) => {},
            TokenView::End => {},
            _ => {
                lemma_dict_peer_pairs_advances(ts, q + 1, None, None, k, addresses);
                if let Ok((a, e)) = dict_peer_at(ts, q, k, addresses) {
                    lemma_peer_items_advances(ts, e, acc.push(a), k + 1, addresses);
                }
            },
        }
    }
}

/// The peer list from position `ends[j]` on, after the first `j` peers, is all the
/// peers.
proof fn lemma_peer_items_entries(
    ts: Seq<TokenView>,
    peers: Seq<AddrView>,
    ends: Seq<int>,
    k: int,
    addresses: Seq<Option<AddrView>>,
    j: int,
)
    requires
        0 <= j <= peers.len(),
        ends.len() == peers.len() + 1,
        forall|i: int| 0 <= i <= peers.len() ==> 0 <= #[trigger] ends[i] < ts.len(),
        forall|i: int|
            0 <= i < peers.len() ==> dict_peer_at(ts, #[trigger] ends[i], k + i, addresses) == Ok::<
                (AddrView, int),
                TrackerFail,
            >((peers[i], ends[i + 1])),
        ts[ends[peers.len() as int]] == TokenView::End,
    ensures
        peer_items(ts, ends[j], peers.take(j), k + j, addresses) == Ok::<(Seq<AddrView>, int), TrackerFail>(
            (peers, ends[peers.len() as int] + 1),
        ),
    decreases peers.len() - j,
{
    if j == peers.len() {
        assert(peers.take(j) =~= peers);
    } else {
        let q = ends[j];
        assert(dict_peer_at(ts, q, k + j, addresses) == Ok::<(AddrView, int), TrackerFail>((peers[j], ends[j + 1])));
        assert(ts[q] == TokenView::Dict);
        assert(peers.take(j).push(peers[j]) =~= peers.take(j + 1));
        lemma_peer_items_entries(ts, peers, ends, k, addresses, j + 1);
        assert(k + j + 1 == k + (j + 1));
    }
}

/// A list of peer dictionaries reads as those peers, in the order in which they
/// stand: when the dictionary at `ends[i]` reads as `peers[i]` and ends before
/// `ends[i + 1]`, and the list's end follows the last, the list is `peers`.
pub proof fn lemma_peers_at_entries(
    ts: Seq<TokenView>,
    p: int,
    peers: Seq<AddrView>,
    ends: Seq<int>,
    k: int,
    addresses: Seq<Option<AddrView>>,
)
    requires
        0 <= p,
        ts[p] == TokenView::List,
        ends.len() == peers.len() + 1,
        ends[0] == p + 1,
        forall|i: int| 0 <= i <= peers.len() ==> 0 <= #[trigger] ends[i] < ts.len(),
        forall|i: int|
            0 <= i < peers.len() ==> dict_peer_at(ts, #[trigger] ends[i], k + i, addresses) == Ok::<
                (AddrView, int),
                TrackerFail,
            >((peers[i], ends[i + 1])),
        ts[ends[peers.len() as int]] == TokenView::End,
    ensures
        peers_at(ts, p, k, addresses) == Ok::<(Seq<AddrView>, int), TrackerFail>(
            (peers, ends[peers.len() as int] + 1),
        ),
{
    assert(peers.take(0) =~= seq![]);
    lemma_peer_items_entries(ts, peers, ends, k, addresses, 0);
}

/// The `peers` value at `p`: a compact peer list, or a list of peer dictionaries.
pub open spec fn peers_at(ts: Seq<TokenView>, p: int, k: int, addresses: Seq<Option<AddrView>>) -> Result<(Seq<AddrView>, int), TrackerFail> {
    match ts[p] {
        TokenView::Bytes(b) => if b.len() % 6 != 0 {
            Err(TrackerFail::Plain(TrackerError::BadCompactLength(b.len() as usize)))
        } else {
            Ok((compact_peers(b), p + 1))
        },
        TokenView::List => peer_items(ts, p + 1, seq![], k, addresses),
        _ => Err(TrackerFail::Plain(TrackerError::BadPeers)),
    }
}

/// How many dictionary peers a `peers` value holds.
pub open spec fn dict_peer_count(ts: Seq<TokenView>, p: int, peers: Seq<AddrView>) -> int {
    match ts[p] {
        TokenView::List => peers.len() as int,
        _ => 0,
    }
}

/// The entries of an announce response read so far.
pub struct ResponseAcc {
    pub interval: Option<u32>,
    pub peers: Option<Seq<AddrView>>,
    pub complete: Option<u32>,
    pub incomplete: Option<u32>,
    pub failure: Option<Seq<char>>,
}

pub open spec fn empty_acc() -> ResponseAcc {
    ResponseAcc { interval: None, peers: None, complete: None, incomplete: None, failure: None }
}

/// The checks once the response is read: a failure reason wins, then the interval
/// and the peers must be there.
pub open spec fn finish_response(acc: ResponseAcc) -> Result<ResponseView, TrackerFail> {
    match acc.failure {
        Some(reason) => Err(TrackerFail::Failure(reason)),
        None => match acc.interval {
            None => Err(TrackerFail::Plain(TrackerError::MissingInterval)),
            Some(interval) => match acc.peers {
                None => Err(TrackerFail::Plain(TrackerError::MissingPeers)),
                Some(peers) => Ok(ResponseView { interval, peers, complete: acc.complete, incomplete: acc.incomplete }),
            },
        },
    }
}

/// The entries of the response dictionary from `q` on; `k` dictionary peers came
/// before.
pub open spec fn response_pairs(
    ts: Seq<TokenView>,
    q: int,
    acc: ResponseAcc,
    k: int,
    addresses: Seq<Option<AddrView>>,
) -> Result<ResponseView, TrackerFail>
    decreases ts.len() - q,
{
    if q < 0 || q >= ts.len() {
        Err(TrackerFail::Plain(TrackerError::Malformed))
    } else {
        match ts[q] {
            TokenView::Error(m) => Err(TrackerFail::Decode(m)),
            TokenView::End => finish_response(acc),
            TokenView::Bytes(key) => match value_start(ts, q + 1) {
                Err(e) => Err(read_fail(e)),
                Ok(()) => if key == interval_key() {
                    match u32_at(ts, q + 1) {
                        Err(e) => Err(e),
                        Ok(v) => response_pairs(ts, q + 2, ResponseAcc { interval: Some(v), ..acc }, k, addresses),
                    }
                } else if key == peers_key() {
                    match peers_at(ts, q + 1, k, addresses) {
                        Err(e) => Err(e),
                        Ok((peers, e)) => {
                            proof {
                                lemma_peer_items_advances(ts, q + 2, seq![], k, addresses);
                            }
                            response_pairs(
                                ts,
                                e,
                                ResponseAcc { peers: Some(peers), ..acc },
                                k + dict_peer_count(ts, q + 1, peers),
                                addresses,
                            )
                        },
                    }
                } else if key == complete_key() {
                    match u32_at(ts, q + 1) {
                        Err(e) => Err(e),
                        Ok(v) => response_pairs(ts, q + 2, ResponseAcc { complete: Some(v), ..acc }, k, addresses),
                    }
                } else if key == incomplete_key() {
                    match u32_at(ts, q + 1) {
                        Err(e) => Err(e),
                        Ok(v) => response_pairs(ts, q + 2, ResponseAcc { incomplete: Some(v), ..acc }, k, addresses),
                    }
                } else if key == failure_key() {
                    match text_at(ts, q + 1) {
                        Err(e) => Err(e),
                        Ok(v) => response_pairs(ts, q + 2, ResponseAcc { failure: Some(v), ..acc }, k, addresses),
                    }
                } else {
                    match skip_value(ts, q + 1) {
                        Err(e) => Err(read_fail(e)),
                        Ok(e) => {
                            proof {
                                lemma_skip_from_advances(ts, q + 1, 0);
                            }
                            response_pairs(ts, e, acc, k, addresses)
                        },
                    }
                },
            },
            _ => Err(TrackerFail::Plain(TrackerError::Malformed)),
        }
    }
}

/// The announce response that the tokens `ts` describe, where `addresses[i]` is
/// what the address text of the `i`th peer dictionary parses to.
pub open spec fn spec_response(ts: Seq<TokenView>, addresses: Seq<Option<AddrView>>) -> Result<ResponseView, TrackerFail> {
    if ts.len() == 0 {
        Err(TrackerFail::Plain(TrackerError::Empty))
    } else {
        match ts[0] {
            TokenView::Error(m) => Err(TrackerFail::Decode(m)),
            TokenView::End => Err(TrackerFail::Plain(TrackerError::Empty)),
            TokenView::Dict => response_pairs(ts, 1, empty_acc(), 0, addresses),
            t => Err(TrackerFail::Decode(unexpected_token_text("Dict"@, kind_name(t)))),
        }
    }
}

/// Why reading a response stopped: an error, or the need of an address.
enum Halt {
    Error(TrackerError),
    NeedsAddress(String),
}

pub open spec fn error_view(e: TrackerError) -> TrackerFail {
    match e {
        TrackerError::Decode(m) => TrackerFail::Decode(m@),
        TrackerError::InvalidInteger(d) => TrackerFail::InvalidInteger(d@),
        TrackerError::InvalidAddress(ip, port) => TrackerFail::InvalidAddress(ip@, port),
        TrackerError::Failure(reason) => TrackerFail::Failure(reason@),
        other => TrackerFail::Plain(other),
    }
}

spec fn halt_view(h: Halt) -> TrackerFail {
    match h {
        Halt::Error(e) => error_view(e),
        Halt::NeedsAddress(t) => TrackerFail::NeedsAddress(t@),
    }
}

pub open spec fn addresses_view(addresses: Seq<Option<PeerAddr>>) -> Seq<Option<AddrView>> {
    Seq::new(
        addresses.len(),
        |i: int|
            match addresses[i] {
                Some(a) => Some(addr_view(a)),
                None => None,
            },
    )
}

fn read_halt(e: Option<String>) -> (h: Halt)
    ensures
        halt_view(h) == read_fail(
            match e {
                Some(m) => Some(m@),
                None => None,
            },
        ),
{
    match e {
        Some(m) => Halt::Error(TrackerError::Decode(m)),
        None => Halt::Error(TrackerError::Malformed),
    }
}

fn text_value(ts: &[Token], p: usize) -> (r: Result<String, Halt>)
    requires
        p < ts@.len(),
    ensures
        match text_at(token_views(ts@), p as int) {
            Ok(v) => r matches Ok(x) && x@ == v,
            Err(f) => r matches Err(x) && halt_view(x) == f,
        },
{
    match &ts[p] {
        Token::Bytes(b) => {
            let owned = b.clone();
            assert(owned@ =~= b@);
            match string_from_utf8(owned) {
                Some(text) => Ok(text),
                None => Err(Halt::Error(TrackerError::InvalidUtf8)),
            }
        },
        t => Err(Halt::Error(TrackerError::Decode(unexpected("String", t)))),
    }
}

fn u64_value(ts: &[Token], p: usize) -> (r: Result<u64, Halt>)
    requires
        p < ts@.len(),
    ensures
        match u64_at(token_views(ts@), p as int) {
            Ok(v) => r matches Ok(x) && x == v,
            Err(f) => r matches Err(x) && halt_view(x) == f,
        },
{
    match &ts[p] {
        Token::Num(d) => match parse_u64(d.as_slice()) {
            Some(v) => Ok(v),
            None => {
                let owned = d.clone();
                assert(owned@ =~= d@);
                Err(Halt::Error(TrackerError::InvalidInteger(owned)))
            },
        },
        t => Err(Halt::Error(TrackerError::Decode(unexpected("Num", t)))),
    }
}

fn u32_value(ts: &[Token], p: usize) -> (r: Result<u32, Halt>)
    requires
        p < ts@.len(),
    ensures
        match u32_at(token_views(ts@), p as int) {
            Ok(v) => r matches Ok(x) && x == v,
            Err(f) => r matches Err(x) && halt_view(x) == f,
        },
{
    let v = u64_value(ts, p)?;
    if v > 4294967295u64 {
        return Err(Halt::Error(TrackerError::OutOfRangeU32));
    }
    Ok(v as u32)
}

fn u16_value(ts: &[Token], p: usize) -> (r: Result<u16, Halt>)
    requires
        p < ts@.len(),
    ensures
        match u16_at(token_views(ts@), p as int) {
            Ok(v) => r matches Ok(x) && x == v,
            Err(f) => r matches Err(x) && halt_view(x) == f,
        },
{
    let v = u64_value(ts, p)?;
    if v > 65535u64 {
        return Err(Halt::Error(TrackerError::OutOfRangeU16));
    }
    Ok(v as u16)
}

/// Reads the peer dictionary at `p`, the `k`th of the response.
fn dict_peer_value(ts: &[Token], p: usize, k: usize, addresses: &[Option<PeerAddr>]) -> (r: Result<(PeerAddr, usize), Halt>)
    requires
        p < ts@.len(),
    ensures
        match dict_peer_at(token_views(ts@), p as int, k as int, addresses_view(addresses@)) {
            Ok((v, e)) => r matches Ok((x, m)) && addr_view(x) == v && m == e,
            Err(f) => r matches Err(x) && halt_view(x) == f,
        },
{
    let ghost views = token_views(ts@);
    let ghost known = addresses_view(addresses@);
    match &ts[p] {
        Token::Dict => {},
        t => {
            return Err(Halt::Error(TrackerError::Decode(unexpected("Dict", t))));
        },
    }
    let ip_k: [u8; 2] = [105u8, 112];
    let port_k: [u8; 4] = [112u8, 111, 114, 116];
    assert(ip_k@ =~= ip_key());
    assert(port_k@ =~= port_key());
    let mut ip: Option<String> = None;
    let mut port: Option<u16> = None;
    let mut q: usize = p + 1;
    loop
        invariant
            views == token_views(ts@),
            known == addresses_view(addresses@),
            p < q <= ts@.len(),
            ip_k@ == ip_key(),
            port_k@ == port_key(),
            dict_peer_at(views, p as int, k as int, known) == dict_peer_pairs(
                views,
                q as int,
                match ip {
                    Some(i) => Some(i@),
                    None => None,
                },
                port,
                k as int,
                known,
            ),
        decreases ts@.len() - q,
    {
        if q >= ts.len() {
            return Err(Halt::Error(TrackerError::Malformed));
        }
        match &ts[q] {
            Token::Error(m) => {
                return Err(Halt::Error(TrackerError::Decode(m.clone())));
            },
            Token::End => {
                let i = match ip {
                    Some(i) => i,
                    None => {
                        return Err(Halt::Error(TrackerError::MissingIp));
                    },
                };
                let pt = match port {
                    Some(pt) => pt,
                    None => {
                        return Err(Halt::Error(TrackerError::MissingPort));
                    },
                };
                if k >= addresses.len() {
                    let mut text = string_of(i.as_str());
                    push_str(&mut text, ":");
                    push_decimal(&mut text, pt as u64);
                    return Err(Halt::NeedsAddress(text));
                }
                return match addresses[k] {
                    Some(a) => Ok((a, q + 1)),
                    None => Err(Halt::Error(TrackerError::InvalidAddress(i, pt))),
                };
            },
            Token::Bytes(key) => {
                match check_value_start(ts, q + 1) {
                    Ok(()) => {},
                    Err(e) => {
                        return Err(read_halt(e));
                    },
                }
                if bytes_equal(key.as_slice(), &ip_k) {
                    ip = Some(text_value(ts, q + 1)?);
                    q = q + 2;
                } else if bytes_equal(key.as_slice(), &port_k) {
                    port = Some(u16_value(ts, q + 1)?);
                    q = q + 2;
                } else {
                    let e = match skip(ts, q + 1) {
                        Ok(e) => e,
                        Err(e) => {
                            return Err(read_halt(e));
                        },
                    };
                    proof {
                        lemma_skip_from_advances(views, q + 1, 0);
                    }
                    q = e;
                }
            },
            _ => {
                return Err(Halt::Error(TrackerError::Malformed));
            },
        }
    }
}

/// Reads the `peers` value at `p`; the dictionary peers in it start at the `k`th.
fn peers_value(ts: &[Token], p: usize, k: usize, addresses: &[Option<PeerAddr>]) -> (r: Result<(Vec<PeerAddr>, usize), Halt>)
    requires
        p < ts@.len(),
        k <= addresses@.len(),
    ensures
        match peers_at(token_views(ts@), p as int, k as int, addresses_view(addresses@)) {
            Ok((v, e)) => r matches Ok((x, m)) && peer_views(x@) == v && m == e
                && k + dict_peer_count(token_views(ts@), p as int, v) <= addresses@.len(),
            Err(f) => r matches Err(x) && halt_view(x) == f,
        },
{
    let ghost views = token_views(ts@);
    let ghost known = addresses_view(addresses@);
    match &ts[p] {
        Token::Bytes(b) => {
            return match parse_compact_peers(b.as_slice()) {
                Ok(peers) => Ok((peers, p + 1)),
                Err(e) => Err(Halt::Error(e)),
            };
        },
        Token::List => {},
        _ => {
            return Err(Halt::Error(TrackerError::BadPeers));
        },
    }
    let mut peers: Vec<PeerAddr> = Vec::new();
    let mut q: usize = p + 1;
    assert(peer_views(peers@) =~= seq![]);
    assert(addresses@.len() == addresses.len());
    loop
        invariant
            addresses@.len() == addresses.len(),
            views == token_views(ts@),
            known == addresses_view(addresses@),
            views[p as int] == TokenView::List,
            p < q <= ts@.len(),
            k + peers@.len() <= addresses@.len(),
            peers_at(views, p as int, k as int, known) == peer_items(
                views,
                q as int,
                peer_views(peers@),
                k + peers@.len(),
                known,
            ),
        decreases ts@.len() - q,
    {
        if q >= ts.len() {
            return Err(Halt::Error(TrackerError::Malformed));
        }
        match &ts[q] {
            Token::Error(m) => {
                return Err(Halt::Error(TrackerError::Decode(m.clone())));
            },
            Token::End => {
                return Ok((peers, q + 1));
            },
            _ => {
                let (a, e) = dict_peer_value(ts, q, k + peers.len(), addresses)?;
                proof {
                    lemma_dict_peer_pairs_advances(views, q + 1, None, None, k + peers@.len(), known);
                }
                let ghost before = peer_views(peers@);
                peers.push(a);
                assert(peer_views(peers@) =~= before.push(addr_view(a)));
                q = e;
            },
        }
    }
}

/// How reading an announce response ends: with the response, with an error, or
/// with the address text of the next peer dictionary, whose parse the reader
/// needs in order to go on.
pub enum ResponseRead {
    Done(AnnounceResponse),
    Failed(TrackerError),
    NeedsAddress(String),
}

/// Reads the announce response that the tokens describe; `addresses[i]` is what
/// the address text of the `i`th peer dictionary parses to, where known.
pub fn response_from_tokens(tokens: &[Token], addresses: &[Option<PeerAddr>]) -> (r: ResponseRead)
    ensures
        match spec_response(token_views(tokens@), addresses_view(addresses@)) {
            Ok(v) => r matches ResponseRead::Done(x) && response_view(x) == v,
            Err(TrackerFail::NeedsAddress(t)) => r matches ResponseRead::NeedsAddress(x) && x@ == t,
            Err(f) => r matches ResponseRead::Failed(x) && error_view(x) == f,
        },
{
    match read_response(tokens, addresses) {
        Ok(response) => ResponseRead::Done(response),
        Err(Halt::Error(e)) => ResponseRead::Failed(e),
        Err(Halt::NeedsAddress(t)) => ResponseRead::NeedsAddress(t),
    }
}

fn read_response(ts: &[Token], addresses: &[Option<PeerAddr>]) -> (r: Result<AnnounceResponse, Halt>)
    ensures
        match spec_response(token_views(ts@), addresses_view(addresses@)) {
            Ok(v) => r matches Ok(x) && response_view(x) == v,
            Err(f) => r matches Err(x) && halt_view(x) == f,
        },
{
    let ghost views = token_views(ts@);
    let ghost known = addresses_view(addresses@);
    if ts.len() == 0 {
        return Err(Halt::Error(TrackerError::Empty));
    }
    match &ts[0] {
        Token::Error(m) => {
            return Err(Halt::Error(TrackerError::Decode(m.clone())));
        },
        Token::End => {
            return Err(Halt::Error(TrackerError::Empty));
        },
        Token::Dict => {},
        t => {
            return Err(Halt::Error(TrackerError::Decode(unexpected("Dict", t))));
        },
    }
    let interval_k: [u8; 8] = [105u8, 110, 116, 101, 114, 118, 97, 108];
    let peers_k: [u8; 5] = [112u8, 101, 101, 114, 115];
    let complete_k: [u8; 8] = [99u8, 111, 109, 112, 108, 101, 116, 101];
    let incomplete_k: [u8; 10] = [105u8, 110, 99, 111, 109, 112, 108, 101, 116, 101];
    let failure_k: [u8; 14] = [102u8, 97, 105, 108, 117, 114, 101, 32, 114, 101, 97, 115, 111, 110];
    assert(interval_k@ =~= interval_key());
    assert(peers_k@ =~= peers_key());
    assert(complete_k@ =~= complete_key());
    assert(incomplete_k@ =~= incomplete_key());
    assert(failure_k@ =~= failure_key());
    let mut interval: Option<u32> = None;
    let mut peers: Option<Vec<PeerAddr>> = None;
    let mut complete: Option<u32> = None;
    let mut incomplete: Option<u32> = None;
    let mut failure: Option<String> = None;
    let mut k: usize = 0;
    let mut q: usize = 1;
    assert(addresses@.len() == addresses.len());
    loop
        invariant
            addresses@.len() == addresses.len(),
            views == token_views(ts@),
            known == addresses_view(addresses@),
            1 <= q <= ts@.len(),
            k <= addresses@.len(),
            interval_k@ == interval_key(),
            peers_k@ == peers_key(),
            complete_k@ == complete_key(),
            incomplete_k@ == incomplete_key(),
            failure_k@ == failure_key(),
            spec_response(views, known) == response_pairs(
                views,
                q as int,
                ResponseAcc {
                    interval,
                    peers: match peers {
                        Some(v) => Some(peer_views(v@)),
                        None => None,
                    },
                    complete,
                    incomplete,
                    failure: match failure {
                        Some(f) => Some(f@),
                        None => None,
                    },
                },
                k as int,
                known,
            ),
        decreases ts@.len() - q,
    {
        if q >= ts.len() {
            return Err(Halt::Error(TrackerError::Malformed));
        }
        match &ts[q] {
            Token::Error(m) => {
                return Err(Halt::Error(TrackerError::Decode(m.clone())));
            },
            Token::End => {
                if let Some(reason) = failure {
                    return Err(Halt::Error(TrackerError::Failure(reason)));
                }
                let interval = match interval {
                    Some(v) => v,
                    None => {
                        return Err(Halt::Error(TrackerError::MissingInterval));
                    },
                };
                let peers = match peers {
                    Some(v) => v,
                    None => {
                        return Err(Halt::Error(TrackerError::MissingPeers));
                    },
                };
                return Ok(AnnounceResponse { interval, peers, complete, incomplete });
            },
            Token::Bytes(key) => {
                match check_value_start(ts, q + 1) {
                    Ok(()) => {},
                    Err(e) => {
                        return Err(read_halt(e));
                    },
                }
                if bytes_equal(key.as_slice(), &interval_k) {
                    interval = Some(u32_value(ts, q + 1)?);
                    q = q + 2;
                } else if bytes_equal(key.as_slice(), &peers_k) {
                    let (v, e) = peers_value(ts, q + 1, k, addresses)?;
                    proof {
                        lemma_peer_items_advances(views, q + 2, seq![], k as int, known);
                    }
                    if let Token::List = &ts[q + 1] {
                        k = k + v.len();
                    }
                    peers = Some(v);
                    q = e;
                } else if bytes_equal(key.as_slice(), &complete_k) {
                    complete = Some(u32_value(ts, q + 1)?);
                    q = q + 2;
                } else if bytes_equal(key.as_slice(), &incomplete_k) {
                    incomplete = Some(u32_value(ts, q + 1)?);
                    q = q + 2;
                } else if bytes_equal(key.as_slice(), &failure_k) {
                    failure = Some(text_value(ts, q + 1)?);
                    q = q + 2;
                } else {
                    let e = match skip(ts, q + 1) {
                        Ok(e) => e,
                        Err(e) => {
                            return Err(read_halt(e));
                        },
                    };
                    proof {
                        lemma_skip_from_advances(views, q + 1, 0);
                    }
                    q = e;
                }
            },
            _ => {
                return Err(Halt::Error(TrackerError::Malformed));
            },
        }
    }
}

/// Reads the body of a tracker's announce response, decoded by `bendy`;
/// `addresses[i]` is what the address text of the `i`th peer dictionary parses to,
/// where known.
pub fn parse_announce_response(body: &[u8], addresses: &[Option<PeerAddr>]) -> (r: ResponseRead)
    ensures
        match spec_response(bendy_tokens(body@), addresses_view(addresses@)) {
            Ok(v) => r matches ResponseRead::Done(x) && response_view(x) == v,
            Err(TrackerFail::NeedsAddress(t)) => r matches ResponseRead::NeedsAddress(x) && x@ == t,
            Err(f) => r matches ResponseRead::Failed(x) && error_view(x) == f,
        },
{
    let tokens = decode_tokens(body);
    response_from_tokens(tokens.as_slice(), addresses)
}

} // verus!
