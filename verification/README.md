# hyx

Files and folders from one device to another over QUIC: direct on a local
network, through a punched hole or a relay otherwise, with transfers that are
compressed, checked and resumed where they stopped.

The library under `src/` is written in Verus. Functions state what they return
or change, and the verifier checks it; what a random number or the clock decides
is left open, and the functions that work on it take it as an argument.

| Part | Modules |
| --- | --- |
| Chunks, frames and files | `transfer_file`, `chunk_io`, `whole_file`, `compression`, `verification`, `codec` |
| Folders and resuming | `transfer_folder`, `paths`, `state`, `progress` |
| Sessions | `protocol`, `handshake`, `session`, `reconnect`, `tls`, `identity`, `ids`, `known_peers` |
| Finding peers | `discovery`, `traversal`, `rendezvous`, `names`, `net` |
| Rates | `bandwidth`, `congestion`, `units`, `decimal`, `double` |
| Front ends | `cli`, `bridge`, `history` |
| Shared | `error`, `text`, `table`, `clock`, `random` |

Calls into other crates (zstd, SHA-256, base64, hex, random numbers, the clock,
certificates, bit vectors) stand in small functions whose contracts say what is
relied on. Proof functions whose names begin with `law_` state what holds
across functions: that a file arrives as it was sent, that what is on the wire
reads back as what was written, that a received path stays inside its folder,
that a relay connects only the two peers of a session, and more.

`tests/` runs the library on examples. `app/` is the program around it: the
command line, sockets, files and the QUIC stack.
