# rust_config_tree

Recursive include trees for layered configuration files, with template and
JSON Schema generation and shell-completion setup.

- `src/` is the verified library. Each module states its behaviour in
  `requires`/`ensures` contracts over mathematical models (sequences of
  characters for paths and texts, `JsonTree` for JSON Schemas, `ConfigMeta`
  for a config schema's fields), and Verus proves the code against them.
  The laws of the library (normalization is idempotent, generated schemas
  carry no `required` lists or split markers, the include tree is loaded
  depth first in the chosen sibling order, a tree loads when its reachable
  files load cleanly and its declared paths form no reachable cycle (for a
  loader with one result per path, exactly then), a reported cycle is the
  walk that closes it, reverse sibling order equals declaring every file's
  paths in reverse, writing the same shell block twice changes nothing, ...)
  are proof functions or `ensures` clauses next to the code they speak of.
  `reach` holds the vocabulary of walks, reachable files and cycles that the
  traversals are stated in.
- `app/` is the unverified glue: reading and writing files, the process
  environment, `confique` metadata, `figment` providers, `schemars` schema
  generation, `serde_json`/`serde_yaml` conversions and the `clap` commands.
- `tests/` exercises the library on concrete values.
