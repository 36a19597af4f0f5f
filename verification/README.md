# spark

A DNS tunnel and the control of a desktop VPN, written in Verus: executable Rust whose behaviour is stated in
contracts and proved.

`src/` is the library. It does no I/O and reads no clock: time is a parameter, sockets and files are the
caller's.

| Directory | What it holds |
|---|---|
| `src/tunnel` | the tunnel: base32 and DNS messages, frames, ciphers and the handshake, reliable streams, the client's and the server's sessions |
| `src/relay` | the server's streams and their connections, its counters, their export |
| `src/ipc` | the control-plane protocol between the app and the privileged service |
| `src/ui` | the rules behind the window and the tray: labels, menus, settings, sharing, the system extension |
| `src/guest` | the transport modules that run in a WebAssembly host |
| `src/platform.rs` | the boundary to the mobile platforms |

Each module states what its functions return over a mathematical model of its data. Properties that span
functions are public proof functions: what one side writes is what the other reads, in order; both ends of a
handshake arrive at the same keys; a session answers a repeated handshake as it first did; a stop wins over a
start.

Cryptography, compression and JSON come from `ring`, `lz4_flex` and `serde_json`. Each call stands behind a
small function whose contract is believed, and whose comment says what it claims.

`app/` is the program around the library: the server's sockets and tasks, the export over TLS, the files of
the settings and a client for the service. `tests/` runs the library.
