# sysstatus

Status-bar tools for Linux (CPU, memory, disk, battery, network, VPN and
package updates) as a verified library plus a thin program around it.

- `src/` is the library, verified with Verus: a character-level model of the
  text handling (`text`), byte-count rendering and format strings (`format`),
  device directory selection (`dirs`), `/proc/stat` readings (`cpu`),
  `iw` link output (`wifi`), the status lines of the simpler tools (`status`),
  the battery notifier's decisions (`notifier`) and the VPN lookups (`vpn`).
- `app/` reads files, runs commands, talks to the network, parses JSON and
  prints; it dispatches to a tool by the name it runs under or by its first
  argument.
- `tests/` exercises the library, among other things against the standard
  library's own text handling and float formatting.
