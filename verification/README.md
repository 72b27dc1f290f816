# fastexport-jsonl

Converts a `git fast-export` stream into JSON Lines (one JSON object per
event) and back, so that history can be grepped, filtered with `jq` or
rewritten with `sed` before it is fed to `git fast-import`. Blob contents
and messages travel base64-encoded, so binary data survives the trip.

The library is written in Verus and verified: every public function states
what it returns in its contract, and the properties the tool exists for are
proved as lemmas.

## Layout

- `src/text.rs` — characters, whitespace, trimming, decimal numbers, UTF-8.
- `src/base64.rs` — the base64 codec.
- `src/json.rs` — the JSON value type, its compact writer and its reader.
- `src/model.rs` — the events of a stream, their JSON objects, redaction.
- `src/fields.rs` — the fields of a stream line: marks, references, person
  stamps, modes, sha1s, quoted paths.
- `src/fastexport.rs` — the stream reader and writer.
- `src/cli.rs` — the two conversions of the command line tool.
- `src/roundtrip.rs`, `src/reread.rs`, `src/lenient.rs` — properties of the
  reader and writer.
- `app/main.rs` — argument handling and I/O.

## What is proved

- Reading the stream written for a sequence of events gives the events back
  (for events whose names, references and stamps can stand where the format
  puts them).
- What reading a stream gives is written as a stream that reads back as the
  same events (where the names read are one line).
- Reading the compact JSON text of a value gives the value; reading an
  event's JSON object gives the event; decoding the base64 text of bytes
  gives the bytes.
- Converting a stream to JSON Lines and back gives the stream that writing
  its events gives; a stream that was written survives both conversions
  byte for byte.
- Lenient reading only relaxes: whatever strict reading accepts, it reads
  the same way.
- Redaction changes identities only: time stamps and offsets stay, and
  redacting twice is redacting once.

## Usage

```
git fast-export --all | fastexport-jsonl to-jsonl > history.jsonl
fastexport-jsonl to-fastexport history.jsonl | git fast-import
```

Options: `--lenient`, `--redact-author="Name <email>"`, and an input file
(or `-` for standard input).
