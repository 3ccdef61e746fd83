# nfsview

A monitor for the network file systems that a Linux host has mounted. It samples the kernel's
counters, derives rates and latencies, and shows them by mount and by server in the terminal.

- `src/` is the library: what is computed, with contracts that Verus proves.
- `tests/` runs it on values.
- `app/` is the program around it: the command line, the files under `/proc`, name resolution and
  the screen.

Floating-point numbers are held by their IEEE 754 bit patterns (`src/binary64.rs`), with arithmetic
in integers. Contracts over them are exact: every operation returns the number nearest to the exact
result.

The modules, from the bottom up:

| module | what it holds |
| --- | --- |
| `natural`, `binary64`, `exact` | large integers, binary64 arithmetic and where it is exact |
| `text`, `ports`, `search`, `order`, `table`, `ringbuf` | texts, numbers and lists in them, sorting and collections |
| `types` | what is measured and what is derived |
| `procfs`, `mountstats` | the kernel's tables |
| `rates`, `sampler` | rates between two samples, and one sample after the other |
| `rank`, `servers`, `history` | the order of rows, mounts by server, series of samples |
| `tab`, `app`, `keys` | the state behind the display and what the keys do |
| `format`, `hist`, `panels` | the texts and curves that are shown |

Two functions of the standard library are believed rather than proved, both in `src/text.rs`:
`String::push` and `str::to_lowercase`.
