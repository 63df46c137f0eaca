# appkit

A small application framework: a big-endian byte buffer for messages, a calendar date
and time, a logging module fed by log-event buffers, the framing of packets between
connection ends, and a reader and writer of JSON files of named values.

- `src/` is the library, verified with Verus: every public function has a contract, and
  the laws of the library (what a read gives back of a write, what the calendar
  conversion computes and where it fails, what getting a key gives after setting it)
  are proof functions there.
  - `data_buffer.rs`: `DataBuffer`, its byte layouts and round-trip laws.
  - `date_time.rs`: `DateTime`, the calendar conversion and its laws.
  - `log_system.rs`: log events, routing by level, console lines.
  - `communication_unit.rs`: packets and the `CommunicationUnit` trait.
  - `file_cursor.rs`: reading a file's bytes up to delimiters.
  - `json.rs`, `json_laws.rs`: JSON values, reading and writing their text, and the
    set-then-get laws.
  - `text.rs`: decimal digits, trimming, reading an `i32`.
  - `property/`: the framework's constants.
- `app/` holds what runs around the library: threads and message queues
  (`AppConfig`), sockets, files, the console, the clock's tick count, and floats (in
  buffers through `byteorder`, and in JSON values).
- `tests/` runs the library on concrete values.
