# xbpf

Diagnostic events of eBPF programs, decoded and integrated into `tracing`, and hash maps of the
kernel.

- `src/` is the library, verified with Verus.
  - `event`: the records of the tracing ring buffer and what they decode to.
  - `tracing`: callsites, span stacks, and what an event asks for.
  - `path`: Unix paths as components, and what two paths have in common.
  - `text`: decimal numbers, white space and prefixes.
  - `hashmap`: operations on a hash map of the kernel, command by command.
  - `map`: values that come out of ring buffers.
- `app/` runs the library against the kernel (`libbpf-rs`) and the `tracing` infrastructure.
- `tests/` runs the library.

The library calls three functions that it does not verify: `core::str::from_utf8` and
`u16::from_ne_bytes` in `event`, and `LevelFilter::current` of the `tracing` crate in `tracing`.
