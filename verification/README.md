# nix_wasm

Functions for Nix's `builtins.wasm`, with their logic verified by Verus.

The centre is an `#include` dependency scanner that lets Nix act as a C/C++
build system: for every compilation unit it computes the files it includes,
directly or not, the generated headers and external includes it needs, and
the watched macros it mentions. Preprocessor conditionals are evaluated in
three-valued logic against known defines, so the result over-approximates
what a compiler would include.

## Layout

- `src/` is the verified library:
  - `text`, `paths`, `strset`: characters, paths, sorted string sets;
  - `preprocessor`: `#if` expressions and the conditional stack;
  - `includes`: logical lines, comments, `#include` extraction, macro
    mentions;
  - `deps`, `graph`, `reach`, `units`: the file index, include resolution,
    reachability, reading files on demand, and per-unit dependencies;
  - `cc`: a simpler scanner that finds includes by trailing path components;
  - `plugins`, `ini_doc`, `yaml_doc`, `host`: the small demonstration
    plugins, INI and YAML documents, and the host's value kinds.
- `app/` holds the host interface and the exported plugin functions: it
  asks the host for directory listings, file contents and values, and hands
  them to the library. What it keeps for itself is what the library cannot
  hold: the floating-point Mandelbrot renderer, and the conversions between
  host values and YAML trees or JavaScript values, where numbers may be
  floating point.
- `tests/` runs the library on concrete inputs.
