# pcb-zen-core

The core of a toolchain that describes circuit boards in Starlark, as a library whose behaviour is
stated in contracts and proved with Verus.

## Layout

- `src/` is the library. Its functions state what they return or change, and Verus proves it.
  - `config`, `workspace`, `discovery`: manifests, workspaces and the packages in them.
  - `version`, `resolution`, `frozen`, `resolved`: versions, dependencies, and how package references
    and files lead to one another.
  - `load_spec`, `kicad_library`, `glob`, `stdlib`, `file_extensions`: load paths, the KiCad libraries
    and the standard library.
  - `lang`: nets, interfaces, components, symbols, parameters, the sources of modules and their
    evaluation.
  - `schematic`, `convert`: turning modules into a schematic.
  - `diagnostic`, `render`, `attrs`: reports and texts.
  - `text`, `path`, `map`, `small_map`: strings, paths and maps.
- `tests/` holds tests on concrete values.
- `app/` is ordinary Rust around the library: files on disk, manifests in TOML, and the loops that run an
  evaluation and a conversion step by step.

## Paths

Paths are texts with `/` as separator, as on POSIX systems, whatever the machine. Drive prefixes and `\`
have no meaning of their own: a path is absolute where it begins with `/`, so
`find_workspace_root` refuses a start such as `C:\boards`. A program for Windows hands paths in and
takes them back in the `/` form.

## What is trusted

A few calls into other crates stand behind functions whose contracts are believed: reading and ordering
versions (`semver`), reading URLs (`url`), matching patterns (`globset`), printing JSON (`serde_json`),
and the parser and the ordered maps of `starlark`. Each says in its doc comment what is claimed of the call.

Values of the evaluator are kept in a store and referred to by their place in it. Where running code,
reading files or asking another program is needed, the library says what it needs and takes the answer
as an argument, or asks a provider that its user implements and says what it asked.
