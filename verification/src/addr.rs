//! Socket addresses of peers and DHT nodes.
use vstd::prelude::*;

verus! {

/// A socket address: IPv4 (four address bytes and a port) or IPv6 (eight
/// segments, a port, the flow information and the scope id).
#[derive(Clone, Copy, Debug, PartialEq, Eq, Hash)]
pub enum PeerAddr {
    V4 { ip: [u8; 4], port: u16 },
    V6 { segments: [u16; 8], port: u16, flowinfo: u32, scope_id: u32 },
}

/// A socket address as plain values.
pub enum AddrView {
    V4(Seq<u8>, u16),
    V6(Seq<u16>, u16, u32, u32),
}

pub open spec fn addr_view(a: PeerAddr) -> AddrView {
    match a {
        PeerAddr::V4 { ip, port } => AddrView::V4(ip@, port),
        PeerAddr::V6 { segments, port, flowinfo, scope_id } => AddrView::V6(segments@, port, flowinfo, scope_id),
    }
}

impl PeerAddr {
    /// The IPv4 address `a.b.c.d:port`.
    pub fn new(a: u8, b: u8, c: u8, d: u8, port: u16) -> (p: PeerAddr)
        ensures
            addr_view(p) == AddrView::V4(seq![a, b, c, d], port),
    {
        let ip = [a, b, c, d];
        assert(ip@ =~= seq![a, b, c, d]);
        PeerAddr::V4 { ip, port }
    }

    /// Whether `self` and `other` are the same address.
    pub fn same(&self, other: &PeerAddr) -> (r: bool)
        ensures
            r == (addr_view(*self) == addr_view(*other)),
    {
        match (self, other) {
            (PeerAddr::V4 { ip: a, port: p }, PeerAddr::V4 { ip: b, port: q }) => {
                let mut i: usize = 0;
                while i < 4
                    invariant
                        i <= 4,
                        addr_view(*self) == AddrView::V4(a@, *p),
                        addr_view(*other) == AddrView::V4(b@, *q),
                        forall|j: int| 0 <= j < i ==> a@[j] == b@[j],
                    decreases 4 - i,
                {
                    if a[i] != b[i] {
                        assert(a@[i as int] != b@[i as int]);
                        return false;
                    }
                    i += 1;
                }
                assert(a@ =~= b@);
                *p == *q
            },
            (
                PeerAddr::V6 { segments: a, port: p, flowinfo: f, scope_id: s },
                PeerAddr::V6 { segments: b, port: q, flowinfo: g, scope_id: t },
            ) => {
                let mut i: usize = 0;
                while i < 8
                    invariant
                        i <= 8,
                        addr_view(*self) == AddrView::V6(a@, *p, *f, *s),
                        addr_view(*other) == AddrView::V6(b@, *q, *g, *t),
                        forall|j: int| 0 <= j < i ==> a@[j] == b@[j],
                    decreases 8 - i,
                {
                    if a[i] != b[i] {
                        assert(a@[i as int] != b@[i as int]);
                        return false;
                    }
                    i += 1;
                }
                assert(a@ =~= b@);
                *p == *q && *f == *g && *s == *t
            },
            _ => false,
        }
    }
}

/// The address of a compact peer entry: four address bytes then a big-endian port.
pub open spec fn compact_peer(chunk: Seq<u8>) -> AddrView {
    AddrView::V4(chunk.take(4), (chunk[4] * 256 + chunk[5]) as u16)
}

/// The addresses of the compact peer list `bytes`, six bytes per peer.
pub open spec fn compact_peers(bytes: Seq<u8>) -> Seq<AddrView> {
    Seq::new((bytes.len() / 6) as nat, |i: int| compact_peer(bytes.subrange(6 * i, 6 * i + 6)))
}

/// Reads the peer at `bytes[at..at + 6]`.
pub fn read_compact_peer(bytes: &[u8], at: usize) -> (p: PeerAddr)
    requires
        at + 6 <= bytes@.len(),
    ensures
        addr_view(p) == compact_peer(bytes@.subrange(at as int, at + 6)),
{
    assert(bytes@.len() == bytes.len());
    let hi: u16 = bytes[at + 4] as u16;
    let lo: u16 = bytes[at + 5] as u16;
    assert(hi * 256 + lo <= 65535) by (nonlinear_arith)
        requires
            hi <= 255,
            lo <= 255,
    ;
    let port: u16 = hi * 256 + lo;
    let p = PeerAddr::new(bytes[at], bytes[at + 1], bytes[at + 2], bytes[at + 3], port);
    assert(seq![bytes@[at as int], bytes@[at + 1], bytes@[at + 2], bytes@[at + 3]] =~= bytes@.subrange(at as int, at + 6).take(4));
    p
}

} // verus!
