# schema_db

A small document store for JSON-LD documents whose keys are schema.org terms.
Documents are validated against the vocabulary, stored in a sled database with
every term key replaced by the number of the term, indexed by `@type`, and
served over TCP as length-framed JSON requests.

Layout:

- `src/` — the verified library: JSON documents (`json`), text helpers
  (`text`), the vocabulary and its numbering (`definition_parser`), validation
  (`schema_validator`), key compression (`compress`), the store (`storage`),
  the wire messages (`protocol`), the server's decisions (`server`) and the
  reading of replies (`client`); `encoding` holds the serde_json calls.
- `app/` — the program around it: loading the vocabulary from a cache file or
  the network, the TCP connection loop, the serde forms of the messages and a
  client.
- `tests/` — tests of the library.
