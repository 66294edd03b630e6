# stylus-check

Static security checks for Arbitrum Stylus contracts, written for the
stylus-sdk, with what each check reports stated as a contract and proved with
Verus.

The library reads Rust source through `syn` and everything after that is
decided on a plain tree: what the contract declares about itself, what leaves
it, what writes its storage, and what each rule has to say about that.

| Module | What it holds |
| --- | --- |
| `syntax` | the plain tree of a source file, and the one place where `syn` is called |
| `declarations` | reading the bodies of `sol_storage!` and `sol_interface!` |
| `model` | what is known of a contract: fields, functions, and how files teach it |
| `rules` | the shared reading, and the rules: `traps`, `calls`, `numbers`, `access` |
| `discover` | which of the files found are checked, and when a path is refused |
| `config` | what a project asked for, and when that is refused |
| `run` | one model per crate, every rule on every file, one sorted report |
| `render` | the report as text, and what a SARIF document says |
| `finding` | severities, findings and reports |
| `laws` | what holds of whole runs |
| `path`, `order`, `text`, `lists` | paths, stable sorting, text and list facts |

`app/` is the command line: it walks the disk, reads `stylus-check.toml`, and
writes JSON.

A quiet run means these rules found nothing to say about this code. It is not an
audit.
