# tabnas_hoover

Block-delimited string *hoovering* for the tabnas parser engine, as a
verified library: the logic of a lexer plugin that vacuums up a run of
source text, spaces and newlines included, between a start and an end
delimiter, with optional escapes, trimming and rule-context gating.

Layout:

- `src/` — the library, verified with Verus.
  - `block.rs`: block definitions and their builders.
  - `scan.rs`: the matcher — rule-context gating, start delimiters, the
    scan to an end delimiter, value resolution, block order.
  - `json.rs`: reading the options from their JSON data shape.
  - `install.rs`: registration checks and the grammar document.
  - `groups.rs`: the engine's group lists and alt filter.
  - `text.rs`: character helpers and the JavaScript trim set.
  - `laws.rs`: properties of the library as a whole.
- `tests/` — the library's tests.
- `app/` — the plugin around the library: registration on a `Tabnas`
  instance, the matcher closure, and the options type that carries the
  matcher order and the alternate action.
