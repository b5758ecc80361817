# dotenv

A `.env` file library with variable substitution (`$VAR`, `${VAR}`,
`${VAR:-default}`), three quote styles (`'`, `"`, `` ` ``), multi-line values
and the `export` prefix, verified with Verus.

- `src/` is the verified library: the grammar and its iterator
  (`parse.rs`, `dotenv.rs`), the line parser and the line-by-line readers
  (`line.rs`, `quoted.rs`, `reader.rs`, `iter.rs`), the variable tables
  (`vars.rs`), the search for a file up the directory tree (`find.rs`), the
  error types (`error.rs`, `errors.rs`) and the properties proved of them
  (`laws.rs`).
- `app/` reads files and the process environment, hands the library the
  text and an `Environment`, and applies what loading decides to the process
  environment.
- `tests/` runs the library on concrete inputs.
