# concerto

A package installer for Composer projects in the manner of PNPM: packages are
resolved from Packagist (or Composer repositories), kept once in a local store
under `.concerto/store`, symlinked into `vendor/`, and recorded in
`concerto.lock` so that later installs only relink.

The library in `src/` holds the installer's logic. Its functions have contracts
proved by Verus, but for five small wrappers whose contracts are trusted: they call
`String::push`, `str::to_lowercase`, `semver_php::Semver::satisfies`, `blake3::hash`
and `sha1_smol::Sha1`, and their doc comments say what each contract claims.

| Module | What it decides |
| --- | --- |
| `composer` | reading `composer.json`: requirements, repositories, refused sections |
| `packagist` | Packagist metadata: release candidates, inherited links, provider names |
| `platform` | platform requirements (`php`, `ext-*`, `lib-*`) against the detected platform |
| `resolver`, `collection`, `solver`, `resolution`, `version_set` | what a requirement accepts, collecting candidates round by round (as a function of the exchanges with the candidate provider), the solver's tables, the retry with every provider, and reading the solution back |
| `installer`, `lockfile` | building and validating the lockfile, the production graph, `--no-dev` |
| `store` | archive hashing (BLAKE3 integrity, SHA-1), the checks against the lockfile and Packagist, store keys, what linking into `vendor/` does |
| `autoload` | the load order of package files, autoload sections, the classes a PHP file declares |
| `output`, `perf` | the command line, event messages, the terminal view's state, the performance log |
| `text`, `order`, `lines`, `json` | strings, text order and sorting, lines, decoded JSON |

`app/` is the program around it: the command line entry point, files and the
network, running `php`, threads, the terminal UI, and the `pubgrub` search over
the library's solver tables.
