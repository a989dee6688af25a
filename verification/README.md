# aegis

An authorization pattern scanner: it extracts permission checks
(`level`, `resource`, `action`) from source code with configurable regex
rules, compares them with a catalog of registered permissions, and reports
the result as a table, CSV, JSON or a catalog document.

The library in `src/` is written in Verus and verified:

- `config` — the scan configuration (rules, file globs, patterns).
- `matcher` — compiled regexes and globs (the `regex` and `glob` crates).
- `pattern` — compiling patterns and extracting permissions from text.
- `scanner` — compiling the rules of a configuration and scanning one file.
- `catalog` — the JSON model, reading catalogs, unregistered and removed keys.
- `reporter` — table, CSV, diff and catalog-document reports.
- `cli` — the commands and the decisions they take.
- `text` — decimal numbers, padding, permission keys.

`app/` is the command-line program around it: argument parsing, reading
the configuration and catalog files, the HTTP request to an authorization
API, walking the file tree, and JSON text.
