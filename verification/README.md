# gut_loader

A verified library for loading GUT data exchange files (a `.flg` layout
file and a gzip-compressed fixed-width `.dat.gz` data file per table) into
MySQL-, PostgreSQL- and Dameng-family databases, with a thin command-line
front end. Oracle is not available in this build: the library builds its
statements and batches, but no Oracle driver is linked, so the program
refuses an Oracle target.

- `src/` — the library, verified with Verus: parsing of both file kinds,
  directory scanning, pre-load checks, insert batching and resumed loads,
  SQL statements per dialect, load reports and their text summary, the
  application log ring, and reading connection settings from chat replies.
- `app/` — the command-line program: file and network I/O, the database
  drivers (sqlx, ODBC), the HTTP client, tracing, JSON export, and the
  floating-point figures (speeds, rates) of reports.
- `tests/` — tests of the library on concrete values.
