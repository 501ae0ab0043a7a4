# XDP compatibility

A client-only DNS check for XDP compatibility. It sends a DNS request over XDP to a public
resolver, asking for the PTR record of the resolver's own address, and validates the response. If
the check fails, there is likely a host, network or XDP issue.

## Layout

- `src/` is the verified library: names and queries in wire form, the end of a question, the check
  of a response, the wait for an answer, transaction ids, and the configuration.
- `app/` is the program around it: the command line, sockets, capabilities and the XDP sender.
- `tests/` runs the library on concrete values.

What is trusted: `rand` for the transaction id (`src/txid.rs`), and `solana_clap_utils` for lists
of CPU cores (`src/cpus.rs`).

## Usage

For XDP zero-copy the client binary needs the capabilities `cap_net_admin`, `cap_net_raw`,
`cap_bpf` and `cap_perfmon`.

```
xdp-compatibility \
  --endpoint-ip <DNS resolver> \
  --experimental-retransmit-xdp-cpu-cores <CORE> \
  --experimental-retransmit-xdp-interface <IFACE> \
  --timeout-ms 1000 \
  --experimental-retransmit-xdp-zero-copy
```

Example: `--endpoint-ip 8.8.8.8` or `--endpoint-ip 1.1.1.1`.
