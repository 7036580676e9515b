# product_space

Product space measures (revealed comparative advantage, proximity, density,
distance, economic complexity) over country-by-product export matrices.

- `src/` is the library, proved with Verus. It holds everything that decides
  where a value lives and which data a calculation uses:
  - `index`: name indexes of the rows (countries) and columns (products) of a
    matrix, lookups with `MissingIndex` errors, and `NameIndex`, an
    append-only list of distinct names;
  - `rows`: the tab-separated rows of an OEC export table, with a `u32`
    reader that accepts what `from_str` accepts;
  - `table`: an export table read line by line (header, rows of one year,
    `NULL` exports skipped, the first bad line refused);
  - `layout`: the indexes of a whole table, the cell that each row fills, and
    the values of the cells, where the last row of a cell wins;
  - `product_space`: yearly matrices and the selection of the years that a
    single-year or an averaged calculation uses;
  - `stats`: the divisor of a variance with delta degrees of freedom;
  - `error`: the lookup error and its text.
- `app/` is the `oec` program and the numeric calculations, which work on
  `f64` matrices with `nalgebra` and stand outside the proofs.
- `tests/` runs the library on concrete values.
