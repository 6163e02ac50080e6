# ostrace

`ostrace` is a tracing core for Rust OS kernels, verified with Verus. It writes
compact per-CPU binary trace records into caller-provided RAM, finds them again in
a RAM dump, and converts them to SmartPerf-compatible bytrace text.

- `src/` is the library. Every function has a contract that Verus proves; the
  public proof functions whose names start with `law_` state what holds of the
  library as a whole, such as that an event that was written is read back.
- `tests/` runs the library on concrete values.
- `app/` is the `trace2bytrace` tool: it reads a RAM dump and writes bytrace text.

```text
trace2bytrace --ram ram.bin --ram-base 0x80000000 \
  --trace-base 0x87b00000 --out trace.bytrace
```

## How it works

An event takes the timestamp and the CPU id from the platform hooks, and becomes a
record in the ring buffer of that CPU. When the ring is full, the oldest records
make room (`Overwrite`), or the event is dropped (`StopOnFull`). Each CPU counts
the records that it dropped.

The rings lie either in separate buffers (`TraceSession`), or together with a
header and one descriptor per CPU in one region of memory (`TraceImage`). A trace
image describes itself: it can be parsed at any time, also from a dump that was
taken before the image was finished.

## What is trusted

The library rests on the specifications that `vstd` gives to the standard library,
and on one of its own: `core::str::from_utf8` accepts exactly the valid UTF-8
encodings, and the text it returns has the given bytes as its encoding.
