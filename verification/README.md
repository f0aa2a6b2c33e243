# mcpg-config

The logic of `mcpg-config`, the MCPG gateway's configuration tool, as a
Verus-verified library, with a thin command-line program around it.

## Layout

- `src/` — the verified library.
  - `json` — a JSON value (`Json`), its mathematical view, lookups, and
    compact rendering.
  - `text` — verified string helpers: trimming, lines, padding, decimal
    numbers, lexicographic order and sorting.
  - `doc` — the Markdown configuration reference rendered from the schema.
  - `explain` — dotted-path tokenizing, walking the schema, and the
    description of one field or of the root.
  - `schema` — recursive key sorting, pretty JSON output, and joining
    description lines into one-line paragraphs.
  - `secrets` — argument reading, parsing the YAML config layers (through
    serde_yaml) and their later-wins deep merge,
    and the sorted, de-duplicated secret-reference table.
  - `order` — proof that the Markdown reference does not depend on the
    order of object entries.
  - `wiring` — the wiring report of consumer slots, plugins, scheme claims
    and unwired plugins.
  - `init` — template choice, argument reading, and the wizard's texts.
- `tests/` — tests of the library on concrete values.
- `app/` — the `mcpg-config` binary: argument routing with clap, file and
  terminal I/O, and the calls into the gateway's configuration crate
  (schema generation, config loading, kind resolution, secret scanning).

Each public function states its result exactly over spec functions; the
`law_*` proof functions state properties that span inputs or calls (key
order never changes the schema output or the Markdown reference, later layers win field by field,
every secret reference is listed once and in order, and so on).
