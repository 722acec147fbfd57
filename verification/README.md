# cargo_issafe

Reports, for each dependency crate of a Rust project, whether unsafe code is
forbidden, absent or present, from cargo's `.d` dependency files.

- `src/` is the library, verified with Verus:
  - `lexer`: tokens of a source, through `rustc_lexer::first_token`;
  - `scan`: comment stripping, `unsafe` counting, and the `DependencyScan`
    that reports each crate's `Safety`;
  - `unsafe_scan`: the `UnsafeScan` that reports each crate's `Unsafe` status;
  - `walk`: the walk over a directory listing that both scans share;
  - `depinfo`, `paths`, `text`: dependency files, path names, char helpers;
  - `error`: `IsSafeError`.
- `app/` is the program: it runs `cargo check`, lists the dependency
  directory, reads the files that a scan asks for, and prints the results.

The scans make no reads themselves: each step says which file to read next and
takes the outcome of that read, so the same logic runs on the file system and
in the tests.
