# rdest

A simple BitTorrent client (BEP3), whose library is verified with Verus.

- `src/` is the library: bencode decoding, encoding and searching
  (`bcodec`), torrent metainfo and tracker responses, the peer wire messages
  and frames, the per-peer and per-session decisions (`peer`, `session`), the
  piece download bookkeeping of a peer connection (`handler`: the blocks of a
  piece, what a received block leads to, the statistics, the announcements
  held back while the peer chokes us) and the progress animation. Each public
  function states its result in its contract; the laws of the library
  (bencode round trip, for any value read as maps, decoding of concatenated
  values, canonical decoder output, the deep search finding the first key in
  document order, frames read back from their bytes, bitfield packing, blocks tiling
  a piece, piece lengths adding up to the total, a created metainfo file
  reading back as the metainfo it describes, the bound on unchoked peers,
  only interested peers unchoked, unchoking by rate, announced choke states
  matching the peers') are public proof functions or postconditions.
- `app/` is the program: the command line, files, sockets, the tracker's
  HTTP client, the terminal view and the asynchronous tasks that pass events
  to the library and send the messages it decides on.
- `tests/` runs the library on concrete values.
