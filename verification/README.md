# rsv

A toolkit for CSV, TXT and Excel data (head, tail, count, frequency tables,
split, select with filters, slice, search, sort, unique, statistics, ...),
written in Verus: the data logic is proved against its contracts, and a thin
command line front end runs it.

## Layout

- `src/` — the verified library.
  - `utils/row_split.rs`: splitting a CSV row at separators outside quotes.
  - `utils/column.rs`, `utils/filter.rs`, `utils/sort.rs`: column selections
    (`0,2-4,-1`), row filters (`0=a,b&1N>=10`) and sort columns (`0ND,1`),
    parsed into values with exact error reports.
  - `utils/expr.rs`: arithmetic expressions over columns (`@1-10*(@3+2)`),
    turned into tokens and a tree by a grammar stated as specifications.
  - `utils/column_type.rs`, `utils/column_stats.rs`: guessing column types
    from their values, and per-column statistics.
  - `utils/ordering.rs`: a stable merge sort of row positions by key.
  - `utils/text.rs`, `utils/number.rs`: text and number grammars (`str::split`,
    `i64` and `f64` syntax) as specifications with checked implementations.
  - `utils/writer.rs`: output lines as bytes.
  - `utils/file.rs`, `utils/filename.rs`, `utils/to.rs`: file names.
  - `utils/re.rs`: regular expressions, through the `regex` crate.
  - `io/`: the decisions of the commands that read piped data: unique rows,
    frequency tables (through `dashmap`), splitting by column value, slicing,
    and the `to` command.
- `app/` — the `rsv` command: argument parsing (`clap`), reading files and
  standard input (Excel through `calamine`), printing tables (`tabled`), and
  the floating-point parts (numeric filters and sorts, the values of
  expressions, numeric statistics).
- `tests/` — tests of the library.
