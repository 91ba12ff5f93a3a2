# binsweep

A cross-ecosystem inventory of globally installed developer binaries:
cargo, Go, pipx and npm install locations are scanned, every executable is
attributed to the package that put it there, orphans nobody claims and
claims with no executable are flagged, and PATH shadowing between them is
reported.

The library under `src/` is written in Verus and every function in it is
verified against its `requires` / `ensures` contract:

- `text`, `path`, `util`: strings as character sequences, sorting, path
  joining, durations, ages and counts.
- `json`: a recursive-descent JSON reader with a grammar given as spec
  functions, and `layout`, the writer side, with the law that what is
  written reads back.
- `cargo`, `gobin`, `pipx`, `npm`: the manifest formats of each ecosystem
  (`.crates2.json`, `.crates.toml`, Go build info, `pipx_metadata.json`,
  `package.json`) and the reconciliation of claims against bin directories.
- `inventory`: the record model, root resolution (flag, then environment,
  then default) and the assembly of sections.
- `shadow`: PATH splitting, de-duplication of aliased directories, and
  shadow detection.
- `report`, `cli`: the human and JSON reports, argument parsing and the
  per-command outputs and exit codes.

The library never touches the file system or the process environment: it
takes what was read (file contents, directory listings, what a path lookup
found, environment values) as plain values. `app/main.rs` is the program
around it that does the reading and printing.
