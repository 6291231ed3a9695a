# pcapng

A reader for pcapng capture files, verified with Verus.

- `src/bytes.rs`: 16-, 32- and 64-bit integers read from a byte buffer in
  either byte order, and the padding of fields to four bytes.
- `src/model.rs`: the reader's state as plain values, the layout of each
  block as a function of its bytes (interface description, enhanced packet
  and interface statistics bodies, their options), and what reading a
  capture file does to the state.
- `src/pcapng.rs`: the reader and the blocks it hands out; each step is
  proved to do what the model says.
- `src/laws.rs`: properties of every reading.
- `src/roundtrip.rs`: capture files as a writer lays them out, and the law
  that such a file is read back with exactly the packets written.
- `app/lib.rs`: opens and reads a capture file with the C library and passes
  each packet block to a callback.
