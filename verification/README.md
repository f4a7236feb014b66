# parsekit

Parsers, encoders and small state machines for a handful of formats and
protocols, written in Verus: every function in `src/` carries a contract
that the verifier proves.

- `png` — signature and chunk framing, an incremental chunk stream parser,
  structure validation, decoding (filters, Adam7, palettes, tRNS), metadata
  chunks, encoding of images, palette images and documents, and a
  libpng-style read/write facade. The encoders succeed whenever `flate2`
  compresses the data and the stream fits one chunk; `png::round_trip`,
  `png::indexed_round_trip` and `png::document_round_trip` prove that
  decoding what the encoder wrote gives the image, or the document with its
  metadata and copied chunks, back; `png::chunk_round_trip` that splitting
  serialized chunks gives them back.
- `redis` — an incremental RESP request parser, reply encoding, an in-memory
  key space with its command semantics, and a client session.
  `redis::resp_split` proves that the requests parsed do not depend on how
  their bytes arrive.
- `miniz` — zlib stored blocks with Adler-32, a C-style streaming inflater
  and an owned-buffer one.
- `http` — request heads, header fields, `Content-Length` and chunked
  bodies; an incremental request collector and a callback-driven parser.
- `sax`, `dom` — markup tokenizers and a tree builder; `sax::split` proves
  that the queued events do not depend on where the input is split outside
  runs of text.
- `json` — a JSON minifier, a parser into values that keep numbers as their
  text, and edits of those values by key, index and path.
- `expr` — a compiler of arithmetic expressions into trees whose numbers are
  kept as their text.
- `text`, `octets` — character and byte helpers shared by the above.

`app/` holds what is not verified: the TCP server, and turning the numbers of
JSON values and expression trees into `f64` and evaluating expressions.

Zlib compression and CRC-32 come from `flate2` and `crc32fast`, behind
trusted wrappers whose contracts are documented where they are declared;
the CRC-32 itself is defined in `png::checksum`.
