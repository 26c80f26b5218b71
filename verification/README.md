# clove_core

The engine of clove, an I2P-only BitTorrent client: everything between the
network boundary below and the daemon above, verified with Verus. It never
touches a socket, a file or a clock: it takes bytes, events and times, and
answers with bytes, decisions and messages. Peers are I2P destinations
throughout.

## Layout

- `src/`: the library. Every function states what it does in `requires` and
  `ensures`, over a mathematical model of its data; what holds across functions
  is stated in the `law_` proof functions.
  - formats: `bencode`, `base64`, `json`, `http`, `wire`, `extension`, `pex`,
    `metadata`, `metainfo`, `magnet`, `resume`, `config`
  - state machines: `picker`, `choker`, `budget`, `reputation`, `torrent` (with
    its model in `world`), `fetch`, `swarm`, `tracker`
  - the disk: `storage`, `bitfield`, `digest`
  - shared: `dest`, `paths`, `text`, `strings`, `scan`, `decimal`, `sorting`
- `tests/`: its tests.
- `app/`: the files, sockets and threads around it.

## What is trusted

A few functions outside the library are called through wrappers whose contracts
are believed: the SHA-1 digest of the `sha1` crate, and six functions of std
(UTF-8 validation and lossy decoding, lower-casing, `char::from_u32`,
`String::push`, and the debug form of a text).
