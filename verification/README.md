# cargo-affect

Plans affected Rust workspace checks from git changes: maps changed files to
Cargo workspace packages, selects those packages plus their reverse workspace
dependents, narrows the selection by an `affect.toml` policy, and emits
outputs for Cargo, cargo-nextest and CI planners.

## Layout

- `src/` is the planner as a Verus library, every function with a contract
  proved by Verus:
  - `text`, `names`: character-sequence helpers, name order, joins and
    replacements.
  - `glob`, `paths`: glob matching through `globset` and path operations
    through `camino`, behind trusted wrappers whose results are named.
  - `config`: the policy (global patterns, path rules, platform excludes,
    package sets, CI profiles) and the filters it applies.
  - `workspace`: workspace packages in name order and their reverse
    dependency graph.
  - `selection`: the selection of packages from changed files, breadth first
    over reverse dependents.
  - `ci`, `planner`, `report`, `input`: CI task planning, the plan itself,
    what the commands print or run, and the text read from git and the
    command line.
  - `laws`: what holds of every plan, stated and proved.
- `app/` is the `cargo-affect` command: argument parsing, Cargo metadata, the
  policy file, git, printing and running CI commands.
- `tests/` runs the library on concrete workspaces.
