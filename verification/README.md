# bittorrent_client

A download-only BitTorrent client whose logic is verified with Verus.

## Layout

- `src/` — the verified library.
  - Bencode: `parse` and `serialise` (byte strings as bytes, dictionaries written with sorted
    keys), `decode` and `encode` (byte strings as text), the shared models in `value`, decimal
    text in `digits`, and the laws that reading gives back what writing wrote in
    `laws_bencode`. `serde_bencode` holds a cursor that reads values one at a time.
  - The peer wire protocol: messages and bitfields (`message`), the handshake (`handshake`),
    and the decisions of a connection (`client`).
  - The torrent: the metainfo file (`metainfo`), the info hash (`torrent`, `hash`), tracker
    requests and responses (`tracker`), and the work of a download (`download`).
  - The download itself: the work queue (`work`), the state of one piece's download and what
    becomes of a finished piece (`worker`), and how pieces are put together (`piece`).
- `app/` — the program: command-line arguments, files, sockets, HTTP, tasks and timers. It
  performs the I/O and asks the library what to do.
- `tests/` — tests that run the library on concrete values.

SHA1 digests come from `sha1_smol`, URLs from `reqwest`'s `Url`; the library states what it
relies on of each in the doc comment of the function that makes the call.
