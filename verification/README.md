# metrics_log

The verified core of an object-store-backed append log, written in Verus.

- `src/segment.rs`: the segment object format (`mlogseg1`, base offset,
  count, then length-prefixed keys and values) and the sparse index; encoding
  and decoding are proved against a byte-level specification, and decoding is
  proved to give back what encoding wrote.
- `src/engine.rs`: the log engine. `produce` plans a batch as one immutable
  segment (keys, bytes, manifest entry, next partition state) and commits it
  through the manifest; `fetch` reads the segment that holds an offset and
  keeps the records from that offset on.
- `src/manifest.rs`: the text formats and rules of the manifest store (topic
  file, partition state files, segment list), with round-trip proofs.
- `src/cli.rs`: the command line of the `metrics-log` tool.
- `src/text.rs`: decimal numbers, splitting, lines and white space at the
  character level, as `str` does them.
- `src/ports.rs`: the `ObjectStore` and `ManifestStore` interfaces.
- `app/`: the `metrics-log` binary and the filesystem adapters, which only
  move bytes to and from disk.
