# bitorrentclient

A BitTorrent client — torrent files, HTTP trackers, the mainline DHT, the peer wire
protocol, piece downloads onto disk — and a Stratego game with a computer player.

The library in `src/` is written in Verus: each function states what it does in its
`requires` / `ensures`, and Verus proves it. The program in `app/` is ordinary Rust
around it: the command line, sockets, HTTP, files, threads and the egui windows.

## Layout of `src/`

- `bencode`, `decoding`, `bytes`, `text`, `utf8`, `sizes`: bencode measuring and
  token reading, byte and text helpers, byte counts in binary units.
- `torrent`: reading a `.torrent` file, the info hash, sizes and pieces.
- `tracker`: announce URLs and announce responses.
- `dht`, `lookup`: KRPC messages and the iterative `get_peers` lookup.
- `peer`, `addr`: the handshake and the peer messages, blocks of a piece.
- `download`, `storage`: which piece comes next, and where its bytes go on disk.
- `cli`, `gui`: the decisions and texts of the command-line and graphical clients.
- `game`, `ai`, `stratego`: the Stratego rules, the computer player and the window
  state.
- `hashing`, `random`: SHA-1 and random bytes from the `sha1` and `rand` crates.

The laws the library keeps — a handshake or a message reads back as written, a
piece's parts cover it exactly, an encoded bencode value reads back as itself, the
DHT lookup never asks a node twice, the game stays playable after every move and
every piece stays accounted for, and others — are public proof functions next to
the code they speak of.
