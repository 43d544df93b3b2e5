# SNI router

Routes TLS and QUIC clients to backends by the server name that they ask for.
What decides where a client goes is a library verified with Verus; sockets,
files, timers and logs are in the program around it.

- `src/` is the library.
  - `client_hello`: the server name in a ClientHello.
  - `config`, `schema`, `text`, `acl`, `pattern`, `rules`: configurations, the
    format and reading of their files, and what their rules say about a client.
  - `tcp`: the TCP router. It reads a ClientHello out of TLS records, picks a
    rule, reaches the rule's backend or its sorry server, and does the TLS
    handshake where it is asked to.
  - `quic`: the QUIC router. It opens Initial packets, puts the ClientHello
    together from their frames, and keeps track of connections by their
    connection IDs and client addresses. `quic::model` says what the router
    knows and how each datagram changes it, `quic::laws` what holds of it as a
    whole.
  - `addr`, `bytes`, `table`: addresses, numbers and small tables.
  - `fd_io`, `privs`: what to do after each system call of a transfer, and the
    order in which privileges are given up.
- `app/` is the program. Called as `sni-router` it routes TLS over TCP, called
  as `sni-router-h3` it routes QUIC over UDP.
- `tests/` runs the library.

The library calls `ring`, `regex`, `ipnet` and `prost-reflect`. What is believed
of them stands at the functions that make the calls.

## Running

```
sni-router --listen [::]:443 --config router.conf
sni-router --listen-unix-datagram pass.sock --config backend.conf
sni-router-h3 --listen [::]:443 --config h3.conf
```

A configuration:

```
rules: <
        regex: "(www[.]|)example[.]com"
        acl: <
                default_action: DROP
                rules: < source: "192.168.0.0/16" action: ACCEPT >
        >
        backend: < proxy: < addr: "localhost:8080" proxy_header: true > >
>
default: < backend: < null: <> > >
```
