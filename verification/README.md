# ast-grep-ffi

A scanning service around ast-grep. A request names rule YAML (inline or in
a file), an optional language hint and source files; the response lists every
match of the rules in the files, sorted by file, start byte and rule id, with
each match's range, text, node kind, message, rule metadata and captured
metavariables. Files that cannot be read or parsed become diagnostics; other
problems become a failed response with an error code and a message.

- `src/` is the library, verified with Verus. Its calls into ast-grep,
  serde_json and std go through small trusted wrappers in `engine.rs`,
  `json.rs`, `text.rs` and `boundary.rs`, whose contracts are taken on
  trust. What ast-grep finds is named rather than restated: the contracts
  say which rule, node and capture facts each record holds, and that a scan
  reports exactly the matches ast-grep finds in each readable, parsable
  file, but not what those matches are for a given rule and source.
- `app/` holds the C entry points: reading the request from a C string,
  decoding its JSON, reading files from disk, and encoding the response.
- `tests/` runs the library against real ast-grep rules.
