# orf

A small version control system in the manner of Git, whose logic is written
in Verus and proved against its contracts.

## Layout

- `src/` — the verified library.
  - `bytes`, `decimal`, `lines`, `text`, `paths`, `keyed`: byte strings,
    numbers in decimal, lines of text, UTF-8 and hexadecimal text, paths as
    `std::path` treats them, and a map kept in key order.
  - `storage/`: how objects are hashed (SHA-1) and compressed (zlib), their
    stored form, blobs, commits, tags, branches, change sets, deltas and
    packfiles, references and `HEAD`.
  - `commands/`: what each command decides — staging files into the index,
    the index file format, `rm`, `status`, `cat-file`, `checkout`, `branch`,
    the walk `log` makes, the `diff` report, and `remote`.
- `app/` — the command-line program around the library: argument parsing,
  the file system, terminal colours and the local time zone.
- `tests/` — tests of the library on concrete values.

Hashing, compression, line diffs, URL parsing and timestamps are done by the
`sha1`, `flate2`, `similar`, `url` and `chrono` crates; the library calls them
through a few trusted wrappers whose contracts say what the library relies on.
