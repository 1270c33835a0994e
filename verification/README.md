# openconstruct_catalog

A catalog of plugin modules: registration by name and semantic version,
search, dependency resolution into a load order, cycle detection, semver
requirement matching and platform compatibility reports. The library is
written in Verus; each public function carries a contract that Verus proves.

## Layout

- `src/` — the verified library.
  - `text`, `order`, `version`: strings, the semver precedence order, and
    `Version` / `VersionRequirement` (parsing and matching are done by the `semver`
    crate behind small trusted wrappers).
  - `platform`, `module`, `error`: the data types.
  - `catalog`: the `Catalog` and its operations; `sort`: verified sorts.
  - `graph`, `resolver`: reachability, cycles, load orders (with the
    version requirements of dependencies checked) and the
    dependency tree; `selection`: best matching versions; `compat`:
    compatibility reports; `installer`: what an installation puts in place.
  - `laws`: properties that span several operations (a registration read
    back, undone, counted; latest and best versions).
- `tests/` — tests run against the compiled library.
- `app/` — JSON (serde) documents, repository metadata as JSON values, and
  installing modules on disk, around the library.
