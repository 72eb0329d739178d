# cachereaper-core

The deciding half of cachereaper, a tool that reclaims disk space from caches and
build artifacts: what a scan counts, which directories the rules claim, what must
never be deleted, and what a deletion session does next. It is written in Rust and
verified with Verus: every function in `src/` is proved to do what its contract
says.

## Layout

`src/` is the library. It works on plain values and performs no I/O.

| module | what it decides |
| --- | --- |
| `scan`, `entry`, `walk`, `rollup` | what a directory contributes, who reads which directory, how totals roll up |
| `agreement` | that a walk counts what is on the disk, whatever the number of workers, and stays out of what it was told to keep shut |
| `guard` | which paths may never be touched, and why a target is refused |
| `rules`, `claims`, `gitignore`, `glob`, `findings` | which directories are caches or build artifacts |
| `purge` | the steps of a deletion session, and what it reports |
| `history`, `json` | the receipts of past sessions, written and read back |
| `access`, `config`, `support`, `update`, `session` | what the desktop app may ask, remembers and shows |
| `path`, `text`, `order`, `size` | paths, text, sorting, byte counts |

The properties that span several functions are the public proof functions whose
names begin with `law_`.

`app/` is the program around the library: it walks the disk with worker threads,
calls `git`, `df` and the system tools, reads and writes files, and answers the
window. `tests/` run the library on concrete values.

## What is trusted

Verus believes the contracts of a few functions of the standard library
(`String::push`, string equality, `str::to_lowercase`) and of two calls into
`serde_json`: parsing one line of a receipt, and writing one. Their contracts, with
what they leave unsaid, are in `src/text.rs` and `src/json.rs`.
