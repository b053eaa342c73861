# linkset

Link sets (RFC 9264): a model of typed links grouped by context, read from
and written to the `application/linkset` text format and the
`application/linkset+json` format.

- `src/` is the library, verified with Verus. `model` holds link sets,
  contexts, links and their attributes; `text` the grammar, parser, decoder,
  reader and writer of the text format; `json` the reader and writer of JSON
  values; `relativizer` writes URIs relative to a base; `message` builds
  error messages that name where reading stopped; `external` holds the calls
  into `sophia_iri`, `sophia_bcp47`, `indexmap` and the parts of `std` whose
  contracts are trusted.
- The laws that the library keeps are public proof functions: reading back
  what is written (`text::round_trip_sets::text_round_trip` and
  `text_round_trip_with_base`, `json::round_trip_sets::json_round_trip`,
  `text::round_trip::ext_value_round_trip`), the two formats agreeing
  (`formats::text_and_json_agree`), and what the methods keep and undo
  (`model::laws`). `Linkset::to_text_string` states that its compact output
  is one line (`text::one_line`): there, line breaks in quoted values are
  written as spaces, while pretty output keeps them.
- `app/` turns JSON text and streams into values with `serde_json` and
  gives the error types their messages and `std::error::Error`.
- `tests/` runs the library on concrete values.
