# fixed_record

Fixed-width records whose fields are byte ranges, with builders, parsers,
field editing, stream reading and writing, and a searchable record list —
written in Verus, with contracts on every public function and proofs of the
library's laws.

## Layout

- `src/layout.rs` — a record layout (`RecordLayout`): field widths, offsets,
  names and the clear byte; the field enum of a record type implements it.
- `src/record.rs` — `Record<F>`, the record as its bytes: building, parsing,
  field access, editing, numeric fields, bulk application.
- `src/records.rs` — concrete record types (`TestRecord`, `User`, `Customer`, …)
  with their per-field accessors, constants and list aliases.
- `src/fixed.rs` — `Fixed<N>`, a fixed-width byte buffer.
- `src/io.rs` — `Writer` and `Reader` over byte buffers, separators, the
  sequence check; `lemma_read_back` (what is written is read back) and
  `law_read_joined` (records separated by any runs of skipped bytes are read
  back, one per `next`).
- `src/list.rs`, `src/sorting.rs` — `RecordList<F>`: ids, logical removal,
  vacuum, stable sorting, per-field indexes kept in field order, and
  searches ordered by field value then id.
- `src/positional.rs` — `PositionalList<F>`: records addressed by position
  (insert, shifting remove, pop), exact, padded, prefix and range searches
  in list order, per-field indexes kept in field order, edits through
  closures, and reading a whole stream; laws on searches, stable sorting and
  the first record by field.
- `src/message.rs` — the message of each error.
- `src/compare.rs`, `src/field_order.rs`, `src/order.rs` — byte and field
  orders.
- `src/number.rs`, `src/text.rs`, `src/dump.rs` — numeric text, padding and
  UTF-8 text, record dumps.
- `src/schema.rs` — the rules a record declaration follows: options, field
  types, field offsets and variant names.
- `src/list_laws.rs`, `src/record_laws.rs` — laws relating several functions.
- `app/main.rs` — a sample program: file I/O, printing, `FromStr` parsing.
- `tests/` — the test suite.
