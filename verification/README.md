# deentry

A verified reader and writer for desktop entry files (`.desktop` files and systemd
service files), written in Verus.

- `src/text.rs`: character classes, trimming and searching, with their specifications.
- `src/lines.rs`: splitting a text into lines and a cursor over them.
- `src/spec.rs`: the meaning of a file: how headers, entries and groups are read, as
  mathematical functions over the lines.
- `src/parse.rs`: the parser, proved to follow `src/spec.rs`.
- `src/entry.rs`: the document types, lookups and value conversions.
- `src/writer.rs`: writing groups and files back.
- `src/roundtrip.rs`: reading a written file gives back what was written.
- `src/laws.rs`: further properties (line numbers of errors, lookups, conversions).
- `src/message.rs`: error messages.
- `app/`: reading a value as a floating point number, and `Display` for the errors.
