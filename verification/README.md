# kachet

Keyboard-first double-entry accounting for the web: a GnuCash replacement
with a Rust + SQLite backend. This crate holds the backend's logic as a
library verified with Verus, and the program around it.

## Layout

- `src/` — the verified library.
  - `money.rs` — exact rational amounts: addition, decimal formatting and
    parsing, GnuCash fractions.
  - `text.rs`, `order.rs` — strings, whitespace, integer syntax, and the
    string and key orders used for sorting.
  - `book.rs` — balances, prices and CAD conversion, the account tree and
    its totals.
  - `report.rs`, `balance.rs` — balance sheet and income statement rows,
    and the proof that the balance sheet balances.
  - `account_report.rs` — the filtered per-account transaction report.
  - `ledger.rs` — transaction checks (zero-sum), the register, the account
    list, account checks, ids and the web-asset hash.
  - `import.rs` — GnuCash XML import (read through quick-xml, gzip through
    flate2).
  - `prices.rs` — Bank of Canada exchange-rate fetch planning.
  - `typst.rs` — typst markup for the PDF export.
- `tests/` — tests of the library.
- `app/` — the program: command line, HTTP API, database, PDF compilation
  and HTTP requests.
