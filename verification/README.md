# protocrap

A small table-driven protobuf library, verified with Verus.

Messages are objects with one slot per field and a word of has-bits; each
message type has a table that drives decoding, encoding, reflection and the
JSON forms.

Layout of `src/`:

- `wire` — varints, zigzag, fixed-width values, read and write cursors.
- `containers`, `base`, `tables`, `descriptor` — repeated fields, the object
  model, message tables and the descriptor types tables are built from.
- `decoding`, `encoding` — the table-driven wire format, each with its
  specification; `roundtrip` proves that a well-formed object decodes from its
  own encoding back to itself (packed repeated fields included), that packed
  and unpacked repeated values decode alike, and that tables built from
  descriptors are well formed.
- `reflection` — tables built from descriptors, a pool of them, and dynamic
  access to fields.
- `locality` — a field decodes from its own bytes alone, and takes as many
  bytes as skipping it; so decoding concatenated bytes merges, and unknown
  fields are dropped wherever they stand.
- `streaming` — a push decoder that decodes each field as soon as its bytes
  have arrived and keeps only the bytes of the field still incomplete, and an
  encoder that hands out a message's encoding buffer by buffer.
- `arena` — a bump allocator over an address space model.
- `wellknown` — timestamps, durations and wrappers; decimal and RFC 3339 text
  (a duration's text reads back as the duration).
- `json`, `json_read`, `table_json` — the JSON form of messages (written as a
  tree of values), reading messages back from a JSON tree, and the plain
  field-name form; `json_law` proves that the JSON form of a plain message
  reads back as the same message.
- `samples` — the `Test` schema and sample messages used by the tests.

`app/` holds the I/O around the library: readers and async readers feeding the
resumable decoder, and JSON text written and read with serde_json (including
the floating-point conversions, which stay out of the verified code).
