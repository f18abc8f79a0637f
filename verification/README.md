# port_scan_rs

Local port listing, remote port scanning, packet capture and pcap analysis.
The library under `src/` is written in Verus: apart from a few thin wrappers
around std, `hex` and `unicode-width`, every executable function is proved
against a specification of what it computes.

- `text` — characters and strings: splitting, trimming, lines, numbers as
  text, and the few std and `hex` calls the rest relies on.
- `parser` — link-layer frames (Ethernet, NULL/LOOP, RAW, LINUX_SLL), IPv4,
  IPv6, TCP, UDP, HTTP recognition, classic pcap files.
- `stats` — protocol statistics, TCP stream reassembly, handshake timelines.
- `table` — terminal tables aligned by display width.
- `scanner` — socket tables, the port-list syntax, filters and rows.
- `netif` — interface records, their order and rows, the live preview.
- `capture`, `capture_engine`, `gui` — capture bookkeeping, the loopback
  capture engine and the state of the desktop pages.
- `report` — what the analysis commands list and print.

`app/` is the command-line program around the library: arguments, files,
processes, sockets, threads and printing.
