# dop

A command-line tool that reads a document (JSON, YAML or TOML), lets a Lua
script visit or edit its keys, and prints the result. The data model and its
operations are a library verified with Verus.

- `src/model.rs`: the mathematical tree (`Data`, `Step`) and the operations on it.
- `src/value.rs`: the executable `Value` and its read, add, change and remove.
- `src/path.rs`: the text form of key paths (`a.b[0][]`), read and written.
- `src/traverse.rs`: breadth-first traversal driven by a callback's answers.
- `src/diff.rs`: the nodes of one tree that differ from another.
- `src/script.rs`: what the script functions `get`, `set` and `unset` do.
- `src/formats.rs`: the format types (JSON, YAML, TOML) and the checks made before writing TOML and YAML.
- `src/common.rs`, `src/text.rs`: regular expressions, maps, digits and text.
- `src/laws.rs`: properties that relate the operations.
- `app/`: the program itself: arguments, input and output, Lua, serde.
