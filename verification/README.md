# vee

A package manager for JavaScript projects: it resolves the dependencies of a
`package.json` against the npm registry, records them in `vee.lock`, keeps
unpacked packages in a content-addressed cache under `~/.vee`, and installs
them into `node_modules` as a store of packages joined by symbolic links.

## Layout

- `src/` is the library, verified with Verus. Each public function states in
  its contract what it returns or changes.
  - `strmap` — the string-keyed map used throughout, with its laws.
  - `text` — string operations with their specifications.
  - `semver_npm` — npm version ranges rewritten for the `semver` crate.
  - `integrity` — subresource integrity strings and checking downloads.
  - `npmrc` — `.npmrc` settings and the `Authorization` header of a request.
  - `registry` — what the registry says of a package.
  - `resolver` — the resolution as a state machine that asks for registry
    documents and takes them as they arrive.
  - `lockfile` — `vee.lock`, and the resolution it gives back.
  - `cache` — where cached packages live and which archive entries are
    unpacked where.
  - `linker` — the fingerprint of an installation and the plan of copies and
    links that installs it.
  - `package_json`, `scripts`, `cli` — the manifest, install scripts, and the
    decisions behind each command.
- `app/` is the program around the library: command-line parsing, files,
  the network, processes and terminal output.
- `tests/` exercises the library on concrete values.
