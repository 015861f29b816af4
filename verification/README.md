# s5_dplane

The verified core of the S5 software switch test bed.

- `src/parser/`: the arguments a parse program sees (`ParserArgs`), the
  native API it calls (`s5_sys_pkt_get_len`, `s5_sys_pkt_read`,
  `s5_sys_pkt_drop`) and the `Parser` that runs a `ParseProgram` on packets.
- `src/simple_switch.rs`: the simple switch parse program (forwards IPv4 and
  IPv6 Ethernet frames, drops the rest).
- `src/forward.rs`: the data plane's forwarding decisions and link-layer
  addresses.
- `src/pktgen.rs`: MAC address text, generated frames, recognition of
  returning frames and the generator's verdict.
- `app/`: the two programs, `s5-dplane` and `e_pktgen` (the binary acts as
  `e_pktgen` when started under that name), with the raw socket I/O.
