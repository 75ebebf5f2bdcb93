# frp-core

The protocol core of a fast reverse proxy, verified with Verus.

`src/` is the library. Its functions carry contracts that Verus proves. It opens
no sockets or files and starts no tasks: what the outside world answers comes in
as a plain value, and what is to be done next goes out as one.

| Module | What it is about |
| --- | --- |
| `protocol`, `msg` | V1 and V2 framing, message kinds and their types on the wire |
| `kcp` | KCP: state machine, session with forward error correction, driver, stream |
| `kcp_compat` | GF(2^8) arithmetic, Vandermonde codes, XOR block |
| `mux`, `quic` | settings, identities and decisions of multiplexed sessions and QUIC |
| `splice`, `snappy_stream` | relays and compressed streams as step functions |
| `stun`, `proxy_protocol` | STUN binding messages, PROXY protocol headers |
| `addr`, `base64`, `text`, `bytes`, `dict`, `clock` | addresses, codecs, and what the rest is built on |
| `metrics`, `logging`, `profiling`, `mem_profile`, `errors` | counters, settings, names, errors |

What holds of the library as a whole stands in public proof functions whose
names start with `law_`, beside the code they are about; those of KCP in files
of their own under `kcp/`. Among them:

- `law_reads_are_a_prefix_of_writes` (`reliability`): over any run of a link that
  loses, repeats or reorders datagrams, a reader is given a prefix of what was
  written, as long as no sequence number is used twice.
- `law_sent_messages_are_delivered` (`delivery`): once every datagram of a flush
  has arrived, in whatever order and however often, the messages are read, each
  once, whole and in its turn.
- `law_first_group_survives_losses` (`lossy`, from `recovery`): any `k` packets
  of a group of `k` data and `p` parity packets bring what its data packets
  carry.
- `law_all_output_is_datagrams` (`datagrams`): whatever is done with a control
  object, what it hands out are whole segments within the MTU.
- `law_no_address_exceeds_its_limit` (`socket_laws`): whatever happens to a
  driver that listens, no address has more sessions than it may.

What is believed of code outside, such as `yamux::Config`,
`quinn::TransportConfig`, the PEM reading of rustls or `rand`, is stated in the
contracts of small wrappers, each with a comment that says what it claims.

`app/` is ordinary Rust around the library: sockets, tasks, files, JSON.
`tests/` runs the library.
