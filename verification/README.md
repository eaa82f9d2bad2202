# ode

The verified core of the Open Design Engine command-line tool: the logic that
reads, checks and edits `.ode.json` design documents, with contracts proved by
Verus.

## Layout

- `src/` — the verified library:
  - `validate.rs`: document validation (references, hierarchy cycles,
    components, overrides, views, token cycles, layout and color warnings) and
    the `validate` command's response.
  - `add.rs`: the `add` command: fill parsing (hexadecimal colors and linear
    gradients), node kinds, default names and placement of a new node in the
    hierarchy.
  - `inspect.rs`: the structure summary printed by `inspect`.
  - `tokens.rs`: design tokens, aliases, alias cycles and resolution.
  - `asset.rs`, `container.rs`: the content-addressed asset store and the
    decisions of the packed / unpacked container format.
  - `wire.rs`: the node references of the stored format and their resolution
    to node positions.
  - `meta.rs`, `output.rs`, `svg.rs`, `commands.rs`, `style.rs`, `node.rs`,
    `document.rs`, `typography.rs`, `errors.rs`: smaller pieces (timestamps,
    responses and exit codes, SVG attribute names, format detection, style
    values, node defaults).
  - `text.rs`, `seqs.rs`: decimal/hex text and sequence search helpers.
- `tests/` — tests of the library.
- `app/` — the command-line program: argument parsing, file and standard
  input/output, JSON (de)serialization, and the floating-point geometry of new
  nodes.

Laws proved in the library are the public proof functions named `law_*`.
