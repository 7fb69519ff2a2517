# warp-socks

A SOCKS5, SOCKS4 and HTTP proxy on one port, whose way out is a WARP tunnel:
MASQUE (HTTP/3 CONNECT over QUIC) or WireGuard in user space.

`src/` is the library: what is decided and computed, written in Verus and
proved. It does no input or output. What it knows of the clock, of chance and of
other crates stands behind small functions whose contracts say what is relied on.

- `addr`, `text`, `wire`, `b64`, `http`, `json`, `table`: texts, numbers and tables
- `socks5`, `socks4`, `http_proxy`, `mixed`, `relay`: what clients speak
- `dns`, `outbound`: names, and the two ways out
- `tunnel`, `config`, `netstack`: WireGuard and the network stack on it
- `registration`, `keys`: accounts, devices and their keys
- `endpoint`, `health`, `appconfig`, `supervisor`, `system`: the course of the process

`app/` is the program around it: sockets, files, HTTP requests and signals.
`tests/` runs the library.
