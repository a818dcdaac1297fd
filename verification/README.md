# cache-node

A content-addressed cache node: blobs are stored under their SHA-256, listed, pulled
from peers over HTTP or a WebRTC data channel, and packages of steps can be replayed and
attested.

- `src/` is the library, verified with Verus. It holds the rules and protocols as
  functions on plain values; each states in its contract what it returns.
- `app/` is the program around it: files, sockets, child processes and WebRTC.
- `tests/` run the library on concrete values.

| module | what it states |
|---|---|
| `text`, `order`, `digest`, `json`, `layout` | text, sorting, digests, JSON values and their text |
| `blob`, `census` | names, paths, the atomic writing of a blob, lists and counters |
| `service`, `http`, `sync` | the answers of a node, reading replies, pulling from a peer |
| `frames`, `pull`, `serve` | the protocol on a data channel |
| `signal`, `ice`, `mesh` | how two nodes find each other |
| `package`, `replay` | reading, identifying, replaying and attesting a package |
| `cli` | the command line |

```
CACHE_NODE_ADDR=0.0.0.0:9910 cache-node
cache-node mesh --role answer --signal https://host/signal --session s1 --root blobs/
cache-node mesh --role offer  --signal https://host/signal --session s1 --root my-blobs/
cache-node verify <file.mpkg> [--out att.json] [--root workdir]
```
